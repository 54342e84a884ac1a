//! Mathematical model of justified text wrapping: whitespace tokenization,
//! padding distribution, line rendering and greedy line packing, all as spec
//! functions over `Seq<char>`.

use vstd::prelude::*;

verus! {

/// Unicode whitespace, the separator set of the generic transform.
pub open spec fn is_space(c: char) -> bool {
    c == ' ' || c == '\t' || c == '\n' || c == '\r' || c == '\u{b}' || c == '\u{c}'
        || c == '\u{85}' || c == '\u{a0}' || c == '\u{1680}'
        || (0x2000 <= c as u32 && c as u32 <= 0x200a)
        || c == '\u{2028}' || c == '\u{2029}' || c == '\u{202f}' || c == '\u{205f}'
        || c == '\u{3000}'
}

/// ASCII whitespace, the separator set of the fast-path transform.
pub open spec fn is_ascii_space(c: char) -> bool {
    c == ' ' || c == '\t' || c == '\n' || c == '\r' || c == '\u{c}'
}

/// The separator predicate of each transform variant: ASCII-only or Unicode.
pub open spec fn space_pred(ascii: bool) -> spec_fn(char) -> bool {
    if ascii {
        |c: char| is_ascii_space(c)
    } else {
        |c: char| is_space(c)
    }
}

/// All characters of `s` are Unicode whitespace, i.e. `s` trims to empty.
pub open spec fn trims_to_empty(s: Seq<char>) -> bool {
    forall|i: int| 0 <= i < s.len() ==> is_space(#[trigger] s[i])
}

/// Tokenization, stepping through `s` from position `i` with the word built so
/// far (`cur`) and the words already complete (`acc`).
pub open spec fn words_from(
    sp: spec_fn(char) -> bool,
    s: Seq<char>,
    i: int,
    cur: Seq<char>,
    acc: Seq<Seq<char>>,
) -> Seq<Seq<char>>
    recommends
        0 <= i <= s.len(),
    decreases s.len() - i,
{
    if i < 0 || i >= s.len() {
        if cur.len() > 0 {
            acc.push(cur)
        } else {
            acc
        }
    } else if sp(s[i]) {
        if cur.len() > 0 {
            words_from(sp, s, i + 1, Seq::empty(), acc.push(cur))
        } else {
            words_from(sp, s, i + 1, cur, acc)
        }
    } else {
        words_from(sp, s, i + 1, cur.push(s[i]), acc)
    }
}

/// The maximal separator-free substrings of `s`, in order.
pub open spec fn words_of(sp: spec_fn(char) -> bool, s: Seq<char>) -> Seq<Seq<char>> {
    words_from(sp, s, 0, Seq::empty(), Seq::empty())
}

/// Sum of the lengths of the words, separators not counted.
pub open spec fn content_len(ws: Seq<Seq<char>>) -> nat
    decreases ws.len(),
{
    if ws.len() == 0 {
        0
    } else {
        content_len(ws.drop_last()) + ws.last().len()
    }
}

pub proof fn lemma_content_len_push(ws: Seq<Seq<char>>, w: Seq<char>)
    ensures
        content_len(ws.push(w)) == content_len(ws) + w.len(),
{
    assert(ws.push(w).drop_last() =~= ws);
}

pub proof fn lemma_content_len_cat(a: Seq<Seq<char>>, b: Seq<Seq<char>>)
    ensures
        content_len(a + b) == content_len(a) + content_len(b),
    decreases b.len(),
{
    if b.len() == 0 {
        assert(a + b =~= a);
    } else {
        assert((a + b).drop_last() =~= a + b.drop_last());
        lemma_content_len_cat(a, b.drop_last());
    }
}

/// Content length plus one mandatory separator per inter-word gap.
pub open spec fn separated_width(ws: Seq<Seq<char>>) -> nat {
    if ws.len() == 0 {
        0
    } else {
        (content_len(ws) + ws.len() - 1) as nat
    }
}

/// The padding rule: how many spaces go into every gap (`.0`) and how many
/// gaps, from the left, get one space more (`.1`), for a line of `words`
/// words whose separated width is `separated` and whose target is `max`.
pub open spec fn padding_spec(words: nat, separated: nat, max: nat) -> (nat, nat)
    recommends
        separated <= max,
{
    let diff = max - separated;
    if words == 0 {
        (0nat, 0nat)
    } else if diff == 0 {
        (if words == 1 { 0nat } else { 1nat }, 0nat)
    } else if diff < words {
        (1nat, diff as nat)
    } else if words == 1 {
        (diff as nat, 0nat)
    } else if words == 2 {
        ((diff + 1) as nat, 0nat)
    } else {
        ((words - 1) as nat / diff as nat, words % diff as nat)
    }
}

/// `n` spaces.
pub open spec fn spaces(n: nat) -> Seq<char> {
    Seq::new(n, |i: int| ' ')
}

/// One rendered word with its trailing spacing: the word, then `padding`
/// spaces unless the word is the last of a multi-word line, then one more
/// space while the running `extra` counter lasts.
pub open spec fn render_from(
    ws: Seq<Seq<char>>,
    padding: nat,
    extra: nat,
    single: bool,
) -> Seq<char>
    decreases ws.len(),
{
    if ws.len() == 0 {
        Seq::empty()
    } else {
        let pad = if ws.len() > 1 || single {
            spaces(padding)
        } else {
            Seq::<char>::empty()
        };
        let boost: Seq<char> = if extra > 0 {
            spaces(1)
        } else {
            Seq::empty()
        };
        let left = if extra > 0 {
            (extra - 1) as nat
        } else {
            0nat
        };
        ws[0] + pad + boost + render_from(ws.drop_first(), padding, left, single)
    }
}

/// A whole line: the words of `ws` joined under the padding rule for target
/// width `max`. A lone word longer than `max` is written bare.
pub open spec fn render_line(ws: Seq<Seq<char>>, max: nat) -> Seq<char> {
    let sw = separated_width(ws);
    let pe = if sw <= max {
        padding_spec(ws.len(), sw, max)
    } else {
        (0nat, 0nat)
    };
    render_from(ws, pe.0, pe.1, ws.len() == 1)
}

/// Greedy packing from word `i` on, with the words of the open line in
/// `line`: returns the text the packer emits for the lines it breaks (`.0`)
/// and the words left on the final, unrendered line (`.1`).
pub open spec fn pack_from(
    ws: Seq<Seq<char>>,
    i: int,
    line: Seq<Seq<char>>,
    max: nat,
) -> (Seq<char>, Seq<Seq<char>>)
    recommends
        0 <= i <= ws.len(),
    decreases ws.len() - i,
{
    if i < 0 || i >= ws.len() {
        (Seq::empty(), line)
    } else {
        let w = ws[i];
        let grown = content_len(line) + w.len() + line.len();
        if line.len() > 0 && grown > max {
            let rest = pack_from(ws, i + 1, seq![w], max);
            (render_line(line, max) + seq!['\n'] + rest.0, rest.1)
        } else {
            pack_from(ws, i + 1, line.push(w), max)
        }
    }
}

/// The full justified text for a word sequence: every broken line followed by
/// a newline, then the final line, rendered once and without a newline.
pub open spec fn justify(ws: Seq<Seq<char>>, max: nat) -> Seq<char> {
    let packed = pack_from(ws, 0, Seq::empty(), max);
    packed.0 + render_line(packed.1, max)
}

/// What `transform` returns: the input itself when there is nothing to do
/// (zero width or no words), else the justified text of its words.
pub open spec fn transform_spec(s: Seq<char>, max: nat, ascii: bool) -> Seq<char> {
    if max == 0 || trims_to_empty(s) {
        s
    } else {
        justify(words_of(space_pred(ascii), s), max)
    }
}

} // verus!
