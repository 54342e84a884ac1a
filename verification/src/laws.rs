//! The properties the transform is meant to have, proved of the model:
//! identity on trivial input, the exact width of every justified line, the
//! trailing padding of a single-word line, the padding round trip, and
//! preservation of the words through rendering and back through splitting.

use vstd::prelude::*;

use crate::model::content_len;
use crate::model::lemma_content_len_cat;
use crate::model::lemma_content_len_push;
use crate::model::pack_from;
use crate::model::padding_spec;
use crate::model::render_from;
use crate::model::render_line;
use crate::model::separated_width;
use crate::model::spaces;
use crate::model::space_pred;
use crate::model::transform_spec;
use crate::model::trims_to_empty;
use crate::model::words_from;
use crate::model::words_of;

verus! {

/// Words completed so far pass through tokenization untouched: the
/// accumulator is a passive prefix of the result.
proof fn lemma_words_from_acc(
    sp: spec_fn(char) -> bool,
    s: Seq<char>,
    i: int,
    cur: Seq<char>,
    acc: Seq<Seq<char>>,
)
    requires
        0 <= i <= s.len(),
    ensures
        words_from(sp, s, i, cur, acc) == acc + words_from(sp, s, i, cur, Seq::empty()),
    decreases s.len() - i,
{
    if i >= s.len() {
        if cur.len() > 0 {
            assert(acc.push(cur) =~= acc + Seq::<Seq<char>>::empty().push(cur));
        } else {
            assert(acc =~= acc + Seq::<Seq<char>>::empty());
        }
    } else if sp(s[i]) {
        if cur.len() > 0 {
            lemma_words_from_acc(sp, s, i + 1, Seq::empty(), acc.push(cur));
            lemma_words_from_acc(sp, s, i + 1, Seq::empty(), Seq::<Seq<char>>::empty().push(cur));
            assert(acc.push(cur) =~= acc + Seq::<Seq<char>>::empty().push(cur));
            assert(acc + (Seq::<Seq<char>>::empty().push(cur) + words_from(
                sp,
                s,
                i + 1,
                Seq::empty(),
                Seq::empty(),
            )) =~= (acc + Seq::<Seq<char>>::empty().push(cur)) + words_from(
                sp,
                s,
                i + 1,
                Seq::empty(),
                Seq::empty(),
            ));
        } else {
            lemma_words_from_acc(sp, s, i + 1, cur, acc);
        }
    } else {
        lemma_words_from_acc(sp, s, i + 1, cur.push(s[i]), acc);
    }
}

/// Tokenization from position `m` reads only the suffix of the text.
proof fn lemma_words_from_shift(
    sp: spec_fn(char) -> bool,
    s: Seq<char>,
    m: int,
    i: int,
    cur: Seq<char>,
    acc: Seq<Seq<char>>,
)
    requires
        0 <= m <= i <= s.len(),
    ensures
        words_from(sp, s, i, cur, acc) == words_from(sp, s.skip(m), i - m, cur, acc),
    decreases s.len() - i,
{
    assert(s.skip(m).len() == s.len() - m);
    if i >= s.len() {
    } else {
        assert(s.skip(m)[i - m] == s[i]);
        if sp(s[i]) {
            if cur.len() > 0 {
                lemma_words_from_shift(sp, s, m, i + 1, Seq::empty(), acc.push(cur));
            } else {
                lemma_words_from_shift(sp, s, m, i + 1, cur, acc);
            }
        } else {
            lemma_words_from_shift(sp, s, m, i + 1, cur.push(s[i]), acc);
        }
    }
}

/// Scanning a separator-free stretch appends it, character by character, to
/// the word in progress.
proof fn lemma_words_from_scan_word(
    sp: spec_fn(char) -> bool,
    s: Seq<char>,
    i: int,
    j: int,
    cur: Seq<char>,
    acc: Seq<Seq<char>>,
)
    requires
        0 <= i <= j <= s.len(),
        forall|k: int| i <= k < j ==> !sp(#[trigger] s[k]),
    ensures
        words_from(sp, s, i, cur, acc) == words_from(sp, s, j, cur + s.subrange(i, j), acc),
    decreases j - i,
{
    if i == j {
        assert(cur + s.subrange(i, j) =~= cur);
    } else {
        lemma_words_from_scan_word(sp, s, i + 1, j, cur.push(s[i]), acc);
        assert(cur.push(s[i]) + s.subrange(i + 1, j) =~= cur + s.subrange(i, j));
    }
}

/// Scanning separators with no word in progress changes nothing.
proof fn lemma_words_from_scan_gap(
    sp: spec_fn(char) -> bool,
    s: Seq<char>,
    i: int,
    j: int,
    acc: Seq<Seq<char>>,
)
    requires
        0 <= i <= j <= s.len(),
        forall|k: int| i <= k < j ==> sp(#[trigger] s[k]),
    ensures
        words_from(sp, s, i, Seq::empty(), acc) == words_from(sp, s, j, Seq::empty(), acc),
    decreases j - i,
{
    if i < j {
        lemma_words_from_scan_gap(sp, s, i + 1, j, acc);
    }
}

/// A separator splits tokenization: the words of `a + [c] + b` are the words
/// of `a` followed by the words of `b`.
proof fn lemma_words_of_split(
    sp: spec_fn(char) -> bool,
    a: Seq<char>,
    c: char,
    b: Seq<char>,
    i: int,
    cur: Seq<char>,
    acc: Seq<Seq<char>>,
)
    requires
        sp(c),
        0 <= i <= a.len(),
    ensures
        words_from(sp, a + seq![c] + b, i, cur, acc) == words_from(
            sp,
            b,
            0,
            Seq::empty(),
            words_from(sp, a, i, cur, acc),
        ),
    decreases a.len() - i,
{
    let s = a + seq![c] + b;
    assert(s.len() == a.len() + 1 + b.len());
    if i < a.len() {
        assert(s[i] == a[i]);
        if sp(a[i]) {
            if cur.len() > 0 {
                lemma_words_of_split(sp, a, c, b, i + 1, Seq::empty(), acc.push(cur));
            } else {
                lemma_words_of_split(sp, a, c, b, i + 1, cur, acc);
            }
        } else {
            lemma_words_of_split(sp, a, c, b, i + 1, cur.push(a[i]), acc);
        }
    } else {
        assert(s[i] == c);
        let flushed: Seq<Seq<char>> = if cur.len() > 0 {
            acc.push(cur)
        } else {
            acc
        };
        if cur.len() == 0 {
            assert(cur =~= Seq::<char>::empty());
        }
        assert(words_from(sp, s, i, cur, acc) == words_from(sp, s, i + 1, Seq::empty(), flushed));
        assert(words_from(sp, a, i, cur, acc) == flushed);
        lemma_words_from_shift(sp, s, i + 1, i + 1, Seq::empty(), flushed);
        assert(s.skip(i + 1) =~= b);
    }
}

/// A single separator-free word followed by spaces tokenizes to that word.
proof fn lemma_words_of_word_spaces(sp: spec_fn(char) -> bool, w: Seq<char>, k: nat)
    requires
        sp(' '),
        w.len() >= 1,
        forall|j: int| 0 <= j < w.len() ==> !sp(#[trigger] w[j]),
    ensures
        words_of(sp, w + spaces(k)) == seq![w],
{
    let s = w + spaces(k);
    lemma_words_from_scan_word(sp, s, 0, w.len() as int, Seq::empty(), Seq::empty());
    assert(Seq::<char>::empty() + s.subrange(0, w.len() as int) =~= w);
    if k == 0 {
        assert(words_from(sp, s, w.len() as int, w, Seq::empty())
            == Seq::<Seq<char>>::empty().push(w));
    } else {
        assert(sp(s[w.len() as int]));
        assert(words_from(sp, s, w.len() as int, w, Seq::empty()) == words_from(
            sp,
            s,
            w.len() + 1int,
            Seq::empty(),
            Seq::<Seq<char>>::empty().push(w),
        ));
        lemma_words_from_scan_gap(
            sp,
            s,
            w.len() + 1int,
            s.len() as int,
            Seq::<Seq<char>>::empty().push(w),
        );
    }
    assert(Seq::<Seq<char>>::empty().push(w) =~= seq![w]);
}

/// Leading spaces before a text change none of its words.
proof fn lemma_words_of_leading_spaces(sp: spec_fn(char) -> bool, m: nat, t: Seq<char>)
    requires
        sp(' '),
    ensures
        words_of(sp, spaces(m) + t) == words_of(sp, t),
{
    let s = spaces(m) + t;
    lemma_words_from_scan_gap(sp, s, 0, m as int, Seq::empty());
    lemma_words_from_shift(sp, s, m as int, m as int, Seq::empty(), Seq::empty());
    assert(s.skip(m as int) =~= t);
}

/// A word of a line: at least one character, none of them a separator.
pub open spec fn plain_word(sp: spec_fn(char) -> bool, w: Seq<char>) -> bool {
    w.len() >= 1 && forall|j: int| 0 <= j < w.len() ==> !sp(#[trigger] w[j])
}

/// Every word of the sequence is a plain word.
pub open spec fn plain_words(sp: spec_fn(char) -> bool, ws: Seq<Seq<char>>) -> bool {
    forall|k: int| 0 <= k < ws.len() ==> plain_word(sp, #[trigger] ws[k])
}

/// Tokenization yields plain words only.
proof fn lemma_words_from_plain(
    sp: spec_fn(char) -> bool,
    s: Seq<char>,
    i: int,
    cur: Seq<char>,
    acc: Seq<Seq<char>>,
)
    requires
        0 <= i <= s.len(),
        forall|j: int| 0 <= j < cur.len() ==> !sp(#[trigger] cur[j]),
        plain_words(sp, acc),
    ensures
        plain_words(sp, words_from(sp, s, i, cur, acc)),
    decreases s.len() - i,
{
    if i >= s.len() {
        if cur.len() > 0 {
            assert(plain_word(sp, cur));
        }
    } else if sp(s[i]) {
        if cur.len() > 0 {
            assert(plain_word(sp, cur));
            lemma_words_from_plain(sp, s, i + 1, Seq::empty(), acc.push(cur));
        } else {
            lemma_words_from_plain(sp, s, i + 1, cur, acc);
        }
    } else {
        lemma_words_from_plain(sp, s, i + 1, cur.push(s[i]), acc);
    }
}

/// Rendering with at least one space in every gap keeps the words intact:
/// splitting the rendered text again yields exactly the line's words.
proof fn lemma_render_from_words(
    sp: spec_fn(char) -> bool,
    ws: Seq<Seq<char>>,
    padding: nat,
    extra: nat,
    single: bool,
)
    requires
        sp(' '),
        plain_words(sp, ws),
        ws.len() >= 2 ==> padding >= 1,
    ensures
        words_of(sp, render_from(ws, padding, extra, single)) == ws,
    decreases ws.len(),
{
    let out = render_from(ws, padding, extra, single);
    if ws.len() == 0 {
        assert(out =~= Seq::<char>::empty());
        assert(words_of(sp, out) =~= Seq::<Seq<char>>::empty());
        assert(ws =~= Seq::<Seq<char>>::empty());
    } else if ws.len() == 1 {
        let k: nat = (if single {
            padding
        } else {
            0nat
        }) + (if extra > 0 {
            1nat
        } else {
            0nat
        });
        assert(render_from(ws.drop_first(), padding, if extra > 0 { (extra - 1) as nat } else { 0nat }, single)
            =~= Seq::<char>::empty());
        assert(out =~= ws[0] + spaces(k));
        lemma_words_of_word_spaces(sp, ws[0], k);
        assert(seq![ws[0]] =~= ws);
    } else {
        let left: nat = if extra > 0 {
            (extra - 1) as nat
        } else {
            0nat
        };
        let rest = render_from(ws.drop_first(), padding, left, single);
        let g: nat = padding + (if extra > 0 {
            1nat
        } else {
            0nat
        });
        let b = spaces((g - 1) as nat) + rest;
        assert(out =~= ws[0] + seq![' '] + b);
        lemma_words_of_split(sp, ws[0], ' ', b, 0, Seq::empty(), Seq::empty());
        lemma_words_of_word_spaces(sp, ws[0], 0);
        assert(ws[0] + spaces(0) =~= ws[0]);
        lemma_words_from_acc(sp, b, 0, Seq::empty(), seq![ws[0]]);
        lemma_words_of_leading_spaces(sp, (g - 1) as nat, rest);
        lemma_render_from_words(sp, ws.drop_first(), padding, left, single);
        assert(words_of(sp, out) == seq![ws[0]] + ws.drop_first());
        assert(seq![ws[0]] + ws.drop_first() =~= ws);
    }
}

/// Word preservation, one line: splitting a rendered line yields exactly
/// the words it was rendered from, as long as the slack stays under the
/// word count or the line has at most two words.
pub proof fn lemma_line_word_preservation(sp: spec_fn(char) -> bool, ws: Seq<Seq<char>>, max: nat)
    requires
        sp(' '),
        plain_words(sp, ws),
        1 <= ws.len(),
        ws.len() >= 2 ==> separated_width(ws) <= max,
        ws.len() <= 2 || max - separated_width(ws) < ws.len(),
    ensures
        words_of(sp, render_line(ws, max)) == ws,
{
    let sw = separated_width(ws);
    let pe = if sw <= max {
        padding_spec(ws.len(), sw, max)
    } else {
        (0nat, 0nat)
    };
    lemma_render_from_words(sp, ws, pe.0, pe.1, ws.len() == 1);
}

/// The slack of every line the packer forms, the final one included, stays
/// under its word count, or the line has at most two words: the family of
/// inputs on which the padding rule cannot keep a line's words apart is
/// excluded.
pub open spec fn line_slack_ok(line: Seq<Seq<char>>, max: nat) -> bool {
    line.len() <= 2 || max - separated_width(line) < line.len()
}

pub open spec fn packing_ok(ws: Seq<Seq<char>>, i: int, line: Seq<Seq<char>>, max: nat) -> bool
    recommends
        0 <= i <= ws.len(),
    decreases ws.len() - i,
{
    if i < 0 || i >= ws.len() {
        line_slack_ok(line, max)
    } else {
        let w = ws[i];
        let grown = content_len(line) + w.len() + line.len();
        if line.len() > 0 && grown > max {
            line_slack_ok(line, max) && packing_ok(ws, i + 1, seq![w], max)
        } else {
            packing_ok(ws, i + 1, line.push(w), max)
        }
    }
}

/// Word preservation across the whole packer: the text it emits, closed by
/// the rendered final line, splits back into the open line's words followed
/// by the words not yet consumed.
proof fn lemma_pack_words(
    sp: spec_fn(char) -> bool,
    ws: Seq<Seq<char>>,
    i: int,
    line: Seq<Seq<char>>,
    max: nat,
)
    requires
        sp(' '),
        sp('\n'),
        plain_words(sp, ws),
        plain_words(sp, line),
        0 <= i <= ws.len(),
        line.len() >= 2 ==> separated_width(line) <= max,
        packing_ok(ws, i, line, max),
    ensures
        ({
            let packed = pack_from(ws, i, line, max);
            words_of(sp, packed.0 + render_line(packed.1, max)) == line + ws.skip(i)
        }),
    decreases ws.len() - i,
{
    let packed = pack_from(ws, i, line, max);
    if i >= ws.len() {
        assert(packed.0 + render_line(line, max) =~= render_line(line, max));
        assert(ws.skip(i) =~= Seq::<Seq<char>>::empty());
        if line.len() == 0 {
            assert(render_line(line, max) =~= Seq::<char>::empty());
            assert(words_of(sp, render_line(line, max)) =~= Seq::<Seq<char>>::empty());
        } else {
            lemma_line_word_preservation(sp, line, max);
        }
        assert(line + ws.skip(i) =~= line);
    } else {
        let w = ws[i];
        assert(plain_word(sp, w));
        let grown = content_len(line) + w.len() + line.len();
        if line.len() > 0 && grown > max {
            let rest = pack_from(ws, i + 1, seq![w], max);
            let a = render_line(line, max);
            let b = rest.0 + render_line(rest.1, max);
            assert(packed.0 + render_line(packed.1, max) =~= a + seq!['\n'] + b);
            lemma_words_of_split(sp, a, '\n', b, 0, Seq::empty(), Seq::empty());
            lemma_line_word_preservation(sp, line, max);
            lemma_words_from_acc(sp, b, 0, Seq::empty(), line);
            assert(plain_words(sp, seq![w]));
            lemma_pack_words(sp, ws, i + 1, seq![w], max);
            assert(words_of(sp, packed.0 + render_line(packed.1, max)) == line + (seq![w]
                + ws.skip(i + 1)));
            assert(line + (seq![w] + ws.skip(i + 1)) =~= line + ws.skip(i));
        } else {
            lemma_content_len_push(line, w);
            assert(plain_words(sp, line.push(w)));
            assert(line.push(w).len() >= 2 ==> separated_width(line.push(w)) <= max);
            lemma_pack_words(sp, ws, i + 1, line.push(w), max);
            assert(line.push(w) + ws.skip(i + 1) =~= line + ws.skip(i));
        }
    }
}

/// Word preservation: the words split out of the transformed text are, in
/// order, exactly the words split out of the input. This holds whenever
/// the packing never forms a line of three or more words with slack at or
/// above its word count; such lines are the one family the padding rule
/// does not keep apart.
pub proof fn lemma_word_preservation(s: Seq<char>, max: nat, ascii: bool)
    requires
        packing_ok(words_of(space_pred(ascii), s), 0, Seq::empty(), max),
    ensures
        words_of(space_pred(ascii), transform_spec(s, max, ascii)) == words_of(
            space_pred(ascii),
            s,
        ),
{
    let sp = space_pred(ascii);
    assert(sp(' ') && sp('\n'));
    if max == 0 || trims_to_empty(s) {
    } else {
        let ws = words_of(sp, s);
        lemma_words_from_plain(sp, s, 0, Seq::empty(), Seq::empty());
        lemma_pack_words(sp, ws, 0, Seq::empty(), max);
        assert(Seq::<Seq<char>>::empty() + ws.skip(0) =~= ws);
    }
}

/// Identity: a zero line width, an empty input, or an input that trims to
/// empty is returned unchanged, by either variant.
pub proof fn lemma_transform_identity(s: Seq<char>, max: nat, ascii: bool)
    requires
        max == 0 || s.len() == 0 || trims_to_empty(s),
    ensures
        transform_spec(s, max, ascii) == s,
{
}

proof fn lemma_mul_basics(m: nat, p: nat)
    ensures
        0nat * p == 0,
        1nat * p == p,
        m * 1nat == m,
        m >= 1 ==> m * p == p + (m - 1) * p,
{
    assert(0nat * p == 0 && 1nat * p == p && m * 1nat == m) by (nonlinear_arith);
    if m >= 1 {
        assert(m * p == p + (m - 1) * p) by (nonlinear_arith)
            requires
                m >= 1,
        ;
    }
}

proof fn lemma_content_len_singleton(w: Seq<char>)
    ensures
        content_len(seq![w]) == w.len(),
{
    assert(content_len(Seq::<Seq<char>>::empty()) == 0);
    assert(seq![w].drop_last() =~= Seq::<Seq<char>>::empty());
}

/// The length of a rendered word sequence: the words themselves, `padding`
/// spaces after every word but a non-single last one, and one extra space
/// per word while the `extra` counter lasts.
proof fn lemma_render_from_len(ws: Seq<Seq<char>>, padding: nat, extra: nat, single: bool)
    ensures
        render_from(ws, padding, extra, single).len() == content_len(ws) + (if ws.len() == 0 {
            0nat
        } else if single {
            ws.len() * padding
        } else {
            (ws.len() - 1) as nat * padding
        }) + (if extra <= ws.len() {
            extra
        } else {
            ws.len()
        }),
    decreases ws.len(),
{
    if ws.len() == 0 {
        assert(content_len(ws) == 0);
    } else {
        let left: nat = if extra > 0 { (extra - 1) as nat } else { 0nat };
        lemma_render_from_len(ws.drop_first(), padding, left, single);
        assert(ws =~= seq![ws[0]] + ws.drop_first());
        lemma_content_len_cat(seq![ws[0]], ws.drop_first());
        lemma_content_len_singleton(ws[0]);
        assert(spaces(padding).len() == padding);
        lemma_mul_basics(ws.len(), padding);
        lemma_mul_basics(ws.drop_first().len(), padding);
    }
}

/// Width invariant: a rendered line whose separated width fits the target
/// fills it exactly, as long as the slack is under the word count or the
/// line has at most two words.
pub proof fn lemma_width_invariant(ws: Seq<Seq<char>>, max: nat)
    requires
        1 <= ws.len(),
        separated_width(ws) <= max,
        ws.len() <= 2 || max - separated_width(ws) < ws.len(),
    ensures
        render_line(ws, max).len() == max,
{
    let sw = separated_width(ws);
    let pe = padding_spec(ws.len(), sw, max);
    lemma_render_from_len(ws, pe.0, pe.1, ws.len() == 1);
    lemma_mul_basics((ws.len() - 1) as nat, pe.0);
}

/// Last-line policy, single word: a word that fits is rendered left-aligned,
/// padded with trailing spaces to exactly the target width.
pub proof fn lemma_single_word_line(w: Seq<char>, max: nat)
    requires
        w.len() <= max,
    ensures
        render_line(seq![w], max) == w + spaces((max - w.len()) as nat),
{
    lemma_content_len_singleton(w);
    let ws = seq![w];
    let sw = separated_width(ws);
    let pe = padding_spec(1, sw, max);
    assert(ws.drop_first() =~= Seq::<Seq<char>>::empty());
    assert(render_from(Seq::<Seq<char>>::empty(), pe.0, 0, true) =~= Seq::<char>::empty());
    assert(render_line(ws, max) =~= w + spaces(pe.0));
    assert(w + spaces(pe.0) =~= w + spaces((max - w.len()) as nat));
}

/// A lone word longer than the target width keeps its own line, written
/// bare: no padding is added and the word is not broken.
pub proof fn lemma_overlong_single_word(w: Seq<char>, max: nat)
    requires
        w.len() > max,
    ensures
        render_line(seq![w], max) == w,
{
    lemma_content_len_singleton(w);
    let ws = seq![w];
    assert(ws.drop_first() =~= Seq::<Seq<char>>::empty());
    assert(render_from(Seq::<Seq<char>>::empty(), 0, 0, true) =~= Seq::<char>::empty());
    assert(render_line(ws, max) =~= w + spaces(0));
    assert(w + spaces(0) =~= w);
}

/// The lines of a text, split at every newline; an empty text is one empty
/// line. `cur` is the partial line already read.
pub open spec fn lines_from(s: Seq<char>, i: int, cur: Seq<char>) -> Seq<Seq<char>>
    recommends
        0 <= i <= s.len(),
    decreases s.len() - i,
{
    if i < 0 || i >= s.len() {
        seq![cur]
    } else if s[i] == '\n' {
        seq![cur] + lines_from(s, i + 1, Seq::empty())
    } else {
        lines_from(s, i + 1, cur.push(s[i]))
    }
}

pub open spec fn lines_of(s: Seq<char>) -> Seq<Seq<char>> {
    lines_from(s, 0, Seq::empty())
}

/// Reading a newline-free stretch appends it to the partial line.
proof fn lemma_lines_from_scan(s: Seq<char>, i: int, j: int, cur: Seq<char>)
    requires
        0 <= i <= j <= s.len(),
        forall|k: int| i <= k < j ==> #[trigger] s[k] != '\n',
    ensures
        lines_from(s, i, cur) == lines_from(s, j, cur + s.subrange(i, j)),
    decreases j - i,
{
    if i == j {
        assert(cur + s.subrange(i, j) =~= cur);
    } else {
        lemma_lines_from_scan(s, i + 1, j, cur.push(s[i]));
        assert(cur.push(s[i]) + s.subrange(i + 1, j) =~= cur + s.subrange(i, j));
    }
}

/// Line splitting from position `m` reads only the suffix of the text.
proof fn lemma_lines_from_shift(s: Seq<char>, m: int, i: int, cur: Seq<char>)
    requires
        0 <= m <= i <= s.len(),
    ensures
        lines_from(s, i, cur) == lines_from(s.skip(m), i - m, cur),
    decreases s.len() - i,
{
    assert(s.skip(m).len() == s.len() - m);
    if i < s.len() {
        assert(s.skip(m)[i - m] == s[i]);
        if s[i] == '\n' {
            lemma_lines_from_shift(s, m, i + 1, Seq::empty());
        } else {
            lemma_lines_from_shift(s, m, i + 1, cur.push(s[i]));
        }
    }
}

/// A newline-free text is a single line.
proof fn lemma_lines_of_plain(s: Seq<char>)
    requires
        forall|k: int| 0 <= k < s.len() ==> #[trigger] s[k] != '\n',
    ensures
        lines_of(s) == seq![s],
{
    lemma_lines_from_scan(s, 0, s.len() as int, Seq::empty());
    assert(Seq::<char>::empty() + s.subrange(0, s.len() as int) =~= s);
}

/// A newline splits the text's lines: the newline-free `a`, then `b`'s lines.
proof fn lemma_lines_of_split(a: Seq<char>, b: Seq<char>)
    requires
        forall|k: int| 0 <= k < a.len() ==> #[trigger] a[k] != '\n',
    ensures
        lines_of(a + seq!['\n'] + b) == seq![a] + lines_of(b),
{
    let s = a + seq!['\n'] + b;
    assert(forall|k: int| 0 <= k < a.len() ==> #[trigger] s[k] != '\n');
    lemma_lines_from_scan(s, 0, a.len() as int, Seq::empty());
    assert(Seq::<char>::empty() + s.subrange(0, a.len() as int) =~= a);
    assert(s[a.len() as int] == '\n');
    lemma_lines_from_shift(s, a.len() + 1int, a.len() + 1int, Seq::empty());
    assert(s.skip(a.len() + 1int) =~= b);
}

/// No character of `s` is a newline.
pub open spec fn newline_free(s: Seq<char>) -> bool {
    forall|k: int| 0 <= k < s.len() ==> #[trigger] s[k] != '\n'
}

proof fn lemma_newline_free_cat(a: Seq<char>, b: Seq<char>)
    requires
        newline_free(a),
        newline_free(b),
    ensures
        newline_free(a + b),
{
    assert forall|k: int| 0 <= k < (a + b).len() implies #[trigger] (a + b)[k] != '\n' by {
        if k < a.len() {
            assert((a + b)[k] == a[k]);
        } else {
            assert((a + b)[k] == b[k - a.len()]);
        }
    }
}

/// A rendered line holds only its words' characters and spaces: no newline.
proof fn lemma_render_from_no_newline(
    ws: Seq<Seq<char>>,
    padding: nat,
    extra: nat,
    single: bool,
)
    requires
        forall|k: int| 0 <= k < ws.len() ==> newline_free(#[trigger] ws[k]),
    ensures
        newline_free(render_from(ws, padding, extra, single)),
    decreases ws.len(),
{
    if ws.len() == 0 {
    } else {
        let pad = if ws.len() > 1 || single {
            spaces(padding)
        } else {
            Seq::<char>::empty()
        };
        let boost: Seq<char> = if extra > 0 {
            spaces(1)
        } else {
            Seq::empty()
        };
        let left: nat = if extra > 0 {
            (extra - 1) as nat
        } else {
            0nat
        };
        lemma_render_from_no_newline(ws.drop_first(), padding, left, single);
        assert(newline_free(pad));
        assert(newline_free(boost));
        lemma_newline_free_cat(ws[0], pad);
        lemma_newline_free_cat(ws[0] + pad, boost);
        lemma_newline_free_cat(
            ws[0] + pad + boost,
            render_from(ws.drop_first(), padding, left, single),
        );
    }
}

/// The packer never forms a line it cannot justify: every line it breaks,
/// and the final line, fits the width (`separated_width <= max`) with slack
/// under its word count, or has at most two words and fits.
pub open spec fn packing_fits(ws: Seq<Seq<char>>, i: int, line: Seq<Seq<char>>, max: nat) -> bool
    recommends
        0 <= i <= ws.len(),
    decreases ws.len() - i,
{
    if i < 0 || i >= ws.len() {
        separated_width(line) <= max && line_slack_ok(line, max)
    } else {
        let w = ws[i];
        let grown = content_len(line) + w.len() + line.len();
        if line.len() > 0 && grown > max {
            separated_width(line) <= max && line_slack_ok(line, max) && packing_fits(
                ws,
                i + 1,
                seq![w],
                max,
            )
        } else {
            packing_fits(ws, i + 1, line.push(w), max)
        }
    }
}

/// Width invariant across the whole packer: every line of the emitted text
/// but the last has exactly the target width.
proof fn lemma_pack_width(ws: Seq<Seq<char>>, i: int, line: Seq<Seq<char>>, max: nat)
    requires
        forall|k: int| 0 <= k < ws.len() ==> newline_free(#[trigger] ws[k]),
        forall|k: int| 0 <= k < line.len() ==> newline_free(#[trigger] line[k]),
        0 <= i <= ws.len(),
        packing_fits(ws, i, line, max),
    ensures
        ({
            let packed = pack_from(ws, i, line, max);
            let ls = lines_of(packed.0 + render_line(packed.1, max));
            forall|j: int| 0 <= j < ls.len() - 1 ==> #[trigger] ls[j].len() == max
        }),
    decreases ws.len() - i,
{
    let packed = pack_from(ws, i, line, max);
    let sw = separated_width(line);
    let pe = if sw <= max {
        padding_spec(line.len(), sw, max)
    } else {
        (0nat, 0nat)
    };
    if i >= ws.len() {
        lemma_render_from_no_newline(line, pe.0, pe.1, line.len() == 1);
        assert(packed.0 + render_line(line, max) =~= render_line(line, max));
        lemma_lines_of_plain(render_line(line, max));
        assert(lines_of(packed.0 + render_line(packed.1, max)).len() == 1);
    } else {
        let w = ws[i];
        let grown = content_len(line) + w.len() + line.len();
        if line.len() > 0 && grown > max {
            let rest = pack_from(ws, i + 1, seq![w], max);
            let a = render_line(line, max);
            let b = rest.0 + render_line(rest.1, max);
            assert(packed.0 + render_line(packed.1, max) =~= a + seq!['\n'] + b);
            lemma_render_from_no_newline(line, pe.0, pe.1, line.len() == 1);
            lemma_lines_of_split(a, b);
            lemma_width_invariant(line, max);
            assert(forall|k: int| 0 <= k < seq![w].len() ==> newline_free(#[trigger] seq![w][k]));
            lemma_pack_width(ws, i + 1, seq![w], max);
            let ls = lines_of(packed.0 + render_line(packed.1, max));
            let lsb = lines_of(b);
            assert(ls == seq![a] + lsb);
            assert(lsb.len() >= 1) by {
                lemma_lines_len(b, 0, Seq::empty());
            }
            assert forall|j: int| 0 <= j < ls.len() - 1 implies #[trigger] ls[j].len() == max by {
                if j == 0 {
                    assert(ls[0] == a);
                } else {
                    assert(ls[j] == lsb[j - 1]);
                    assert(0 <= j - 1 < lsb.len() - 1);
                    assert(lsb[j - 1].len() == max);
                }
            }
        } else {
            assert(forall|k: int|
                0 <= k < line.push(w).len() ==> newline_free(#[trigger] line.push(w)[k]));
            lemma_pack_width(ws, i + 1, line.push(w), max);
            assert(packed == pack_from(ws, i + 1, line.push(w), max));
        }
    }
}

/// Any text splits into at least one line.
proof fn lemma_lines_len(s: Seq<char>, i: int, cur: Seq<char>)
    requires
        0 <= i <= s.len(),
    ensures
        lines_from(s, i, cur).len() >= 1,
    decreases s.len() - i,
{
    if i < s.len() {
        if s[i] == '\n' {
            lemma_lines_len(s, i + 1, Seq::empty());
        } else {
            lemma_lines_len(s, i + 1, cur.push(s[i]));
        }
    }
}

/// Width invariant for the transform: when the packing never forms a line
/// it cannot justify (see [`packing_fits`]), every line of the output but
/// the last is exactly `max` characters long.
pub proof fn lemma_transform_width_invariant(s: Seq<char>, max: nat, ascii: bool)
    requires
        max >= 1,
        !trims_to_empty(s),
        packing_fits(words_of(space_pred(ascii), s), 0, Seq::empty(), max),
    ensures
        ({
            let ls = lines_of(transform_spec(s, max, ascii));
            forall|j: int| 0 <= j < ls.len() - 1 ==> #[trigger] ls[j].len() == max
        }),
{
    let sp = space_pred(ascii);
    let ws = words_of(sp, s);
    assert(sp('\n'));
    lemma_words_from_plain(sp, s, 0, Seq::empty(), Seq::empty());
    assert forall|k: int| 0 <= k < ws.len() implies newline_free(#[trigger] ws[k]) by {
        assert(plain_word(sp, ws[k]));
    }
    lemma_pack_width(ws, 0, Seq::empty(), max);
}

/// Last-line policy, seen end to end: an input holding exactly one word
/// that fits the width is rendered as that word, left-aligned, with
/// trailing spaces padding it to the width.
pub proof fn lemma_single_word_transform(s: Seq<char>, max: nat, ascii: bool)
    requires
        max >= 1,
        !trims_to_empty(s),
        words_of(space_pred(ascii), s).len() == 1,
        words_of(space_pred(ascii), s)[0].len() <= max,
    ensures
        transform_spec(s, max, ascii) == words_of(space_pred(ascii), s)[0] + spaces(
            (max - words_of(space_pred(ascii), s)[0].len()) as nat,
        ),
{
    let sp = space_pred(ascii);
    let ws = words_of(sp, s);
    let w = ws[0];
    assert(pack_from(ws, 0, Seq::empty(), max) == pack_from(ws, 1, Seq::<Seq<char>>::empty().push(
        w,
    ), max));
    assert(pack_from(ws, 1, Seq::<Seq<char>>::empty().push(w), max).1 =~= seq![w]);
    assert(pack_from(ws, 0, Seq::empty(), max).0 =~= Seq::<char>::empty());
    lemma_single_word_line(w, max);
    assert(pack_from(ws, 0, Seq::empty(), max).0 + render_line(seq![w], max) =~= w + spaces(
        (max - w.len()) as nat,
    ));
}

/// Padding round trip: for a line of at least one word whose separated
/// width fits the target, the returned pair restores the width exactly:
/// the content, the padding in every slot (the single slot of a one-word
/// line, else one per gap), and the extra spaces sum to the target. Lines
/// of three or more words with slack at or above the word count are the
/// one family the rule does not restore.
pub proof fn lemma_padding_round_trip(words: nat, separated: nat, max: nat)
    requires
        1 <= words,
        words - 1 <= separated <= max,
        words <= 2 || max - separated < words,
    ensures
        ({
            let pe = padding_spec(words, separated, max);
            let slots: nat = if words == 1 {
                1nat
            } else {
                (words - 1) as nat
            };
            separated - (words - 1) + slots * pe.0 + pe.1 == max
        }),
{
    let pe = padding_spec(words, separated, max);
    let slots: nat = if words == 1 {
        1nat
    } else {
        (words - 1) as nat
    };
    lemma_mul_basics(slots, pe.0);
}

} // verus!
