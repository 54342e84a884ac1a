//! Justified text wrapping: words are packed greedily into lines of a target
//! width, and the spacing of every broken line is stretched so that the line
//! fills the width exactly; the final line is rendered once, without a
//! trailing newline. Widths are counted in characters.

pub mod ascii;
pub mod laws;
pub mod model;

use vstd::prelude::*;

use crate::model::content_len;
use crate::model::is_space;
use crate::model::justify;
use crate::model::lemma_content_len_cat;
use crate::model::lemma_content_len_push;
use crate::model::pack_from;
use crate::model::padding_spec;
use crate::model::render_from;
use crate::model::render_line;
use crate::model::separated_width;
use crate::model::space_pred;
use crate::model::spaces;
use crate::model::transform_spec;
use crate::model::trims_to_empty;
use crate::model::words_from;
use crate::model::words_of;

verus! {

/// The character sequences of a sequence of borrowed words.
pub open spec fn views(ws: Seq<&str>) -> Seq<Seq<char>> {
    ws.map_values(|w: &str| w@)
}

/// An in-progress line: a contiguous range of the words sequence and the
/// summed character length of those words, separators not counted.
#[derive(Clone, Copy, Debug)]
pub struct Line {
    /// Range: `(start, count)` into the words sequence.
    pub words: (usize, usize),
    /// Summed character length of the words of the range.
    pub length: usize,
}

impl Line {
    /// The character sequences of the words this line holds, in order.
    pub open spec fn word_views(self, src: Seq<&str>) -> Seq<Seq<char>> {
        views(src.subrange(self.words.0 as int, self.words.0 + self.words.1))
    }

    /// The range lies inside `src` and `length` is the summed length of its
    /// words.
    pub open spec fn wf(self, src: Seq<&str>) -> bool {
        &&& self.words.0 + self.words.1 <= src.len()
        &&& self.length == content_len(self.word_views(src))
    }
}

impl Line {
    /// Writes this line's words from `src` into `output`, justified to
    /// `line_width`: every gap gets the computed padding, the leftmost gaps
    /// one extra space each, and a single word gets its padding as trailing
    /// spaces. A lone word longer than `line_width` is written bare.
    pub fn render(self, src: &[&str], output: &mut String, line_width: usize)
        requires
            self.wf(src@),
            self.words.1 >= 1 ==> self.length + self.words.1 - 1 <= usize::MAX,
        ensures
            final(output)@ == old(output)@ + render_line(
                self.word_views(src@),
                line_width as nat,
            ),
    {
        let ghost words = self.word_views(src@);
        let ghost out0 = output@;
        let start = self.words.0;
        let count = self.words.1;

        if count == 0 {
            assert(render_from(words, 0, 0, false) =~= Seq::<char>::empty());
            assert(output@ =~= out0 + render_line(words, line_width as nat));
            return;
        }

        let last = count - 1;
        // Separated width: content plus one mandatory space per gap.
        let width = self.length + last;
        let (pad, mut extra) = if width <= line_width {
            padding(count, width, line_width)
        } else {
            (0, 0)
        };
        let ghost single = count == 1;
        let n: usize = src.len();
        proof {
            assert(n == src@.len());
            assert(words.len() == count);
            assert(separated_width(words) == width);
            assert(words.skip(0) =~= words);
            reveal_strlit(" ");
        }

        let mut i: usize = 0;
        while i < count
            invariant
                i <= count,
                count == self.words.1,
                start == self.words.0,
                count >= 1,
                last == count - 1,
                start + count <= src@.len(),
                src@.len() <= usize::MAX,
                words.len() == count,
                forall|k: int| 0 <= k < count ==> words[k] == src@[start + k]@,
                single == (count == 1),
                out0 + render_line(words, line_width as nat) == output@ + render_from(
                    words.skip(i as int),
                    pad as nat,
                    extra as nat,
                    single,
                ),
            decreases count - i,
        {
            proof {
                reveal_strlit(" ");
            }
            let ghost rest_in = words.skip(i as int);
            let w: &str = src[start + i];
            output.append(w);

            // Padding for a non-last word, or for a single word.
            if i != last || last == 0 {
                let ghost snap = output@;
                let mut j: usize = 0;
                while j < pad
                    invariant
                        j <= pad,
                        output@ == snap + spaces(j as nat),
                    decreases pad - j,
                {
                    output.append(" ");
                    proof {
                        reveal_strlit(" ");
                        assert(output@ =~= snap + spaces((j + 1) as nat));
                    }
                    j += 1;
                }
            } else {
                proof {
                    assert(output@ =~= output@ + spaces(0));
                }
            }

            // One of the leftmost `extra` gaps gets one space more.
            if extra != 0 {
                output.append(" ");
                proof {
                    assert(" "@ =~= spaces(1));
                }
                extra -= 1;
            }

            proof {
                assert(rest_in[0] == words[i as int]);
                assert(rest_in.drop_first() =~= words.skip(i + 1));
                assert(out0 + render_line(words, line_width as nat) == output@ + render_from(
                    words.skip(i + 1),
                    pad as nat,
                    extra as nat,
                    single,
                ));
            }
            i += 1;
        }

        proof {
            assert(words.skip(count as int) =~= Seq::<Seq<char>>::empty());
            assert(render_from(Seq::<Seq<char>>::empty(), pad as nat, extra as nat, single)
                =~= Seq::<char>::empty());
            assert(output@ =~= out0 + render_line(words, line_width as nat));
        }
    }
}

impl Default for Line {
    /// An empty line: no words, length zero.
    fn default() -> (r: Line)
        ensures
            r.words.0 == 0 && r.words.1 == 0 && r.length == 0,
    {
        Line { words: (0, 0), length: 0 }
    }
}

/// Whether `c` is a separator of the chosen variant: ASCII whitespace when
/// `ascii` is set, Unicode whitespace otherwise.
fn is_space_char(c: char, ascii: bool) -> (b: bool)
    ensures
        b == space_pred(ascii)(c),
{
    if ascii {
        c == ' ' || c == '\t' || c == '\n' || c == '\r' || c == '\u{c}'
    } else {
        c == ' ' || c == '\t' || c == '\n' || c == '\r' || c == '\u{b}' || c == '\u{c}'
            || c == '\u{85}' || c == '\u{a0}' || c == '\u{1680}'
            || (0x2000 <= c as u32 && c as u32 <= 0x200a)
            || c == '\u{2028}' || c == '\u{2029}' || c == '\u{202f}' || c == '\u{205f}'
            || c == '\u{3000}'
    }
}

/// Whether every character of `input` is Unicode whitespace, i.e. the input
/// trims to the empty string.
fn is_blank(input: &str) -> (b: bool)
    ensures
        b == trims_to_empty(input@),
{
    let n = input.unicode_len();
    let mut i: usize = 0;
    while i < n
        invariant
            i <= n,
            n == input@.len(),
            forall|j: int| 0 <= j < i ==> is_space(#[trigger] input@[j]),
        decreases n - i,
    {
        if !is_space_char(input.get_char(i), false) {
            return false;
        }
        i += 1;
    }
    true
}

/// Splits `input` into its maximal separator-free substrings, borrowed from
/// the input, splitting on ASCII whitespace when `ascii` is set and on
/// Unicode whitespace otherwise.
fn split_words(input: &str, ascii: bool) -> (r: Vec<&str>)
    ensures
        views(r@) == words_of(space_pred(ascii), input@),
        content_len(views(r@)) + r@.len() <= usize::MAX + 1,
{
    let ghost sp = space_pred(ascii);
    let ghost s = input@;
    let n = input.unicode_len();
    let mut acc: Vec<&str> = Vec::new();
    let mut start: usize = 0;
    let mut in_word = false;

    proof {
        assert(views(acc@) =~= Seq::<Seq<char>>::empty());
    }

    let mut i: usize = 0;
    while i < n
        invariant
            i <= n,
            n == s.len(),
            s == input@,
            sp == space_pred(ascii),
            in_word ==> start < i,
            words_from(
                sp,
                s,
                i as int,
                if in_word {
                    s.subrange(start as int, i as int)
                } else {
                    Seq::empty()
                },
                views(acc@),
            ) == words_of(sp, s),
            content_len(views(acc@)) + acc@.len() + (if in_word {
                i - start
            } else {
                0int
            }) <= i,
        decreases n - i,
    {
        let ghost cur = if in_word {
            s.subrange(start as int, i as int)
        } else {
            Seq::<char>::empty()
        };
        let ghost acc0 = views(acc@);
        let c = input.get_char(i);
        if is_space_char(c, ascii) {
            if in_word {
                let w = input.substring_char(start, i);
                acc.push(w);
                proof {
                    assert(views(acc@) =~= acc0.push(cur));
                    lemma_content_len_push(acc0, cur);
                }
                in_word = false;
            }
        } else {
            if !in_word {
                start = i;
                in_word = true;
            }
            proof {
                assert(s.subrange(start as int, i + 1) =~= cur.push(s[i as int]));
            }
        }
        i += 1;
    }

    if in_word {
        let w = input.substring_char(start, n);
        let ghost cur = s.subrange(start as int, n as int);
        let ghost acc0 = views(acc@);
        acc.push(w);
        proof {
            assert(views(acc@) =~= acc0.push(cur));
            lemma_content_len_push(acc0, cur);
        }
    }
    acc
}

/// Packs the words of `source` greedily into lines of width `line_width`:
/// appends each word to `words`, grows the open line while the word still
/// fits, and otherwise renders the full line into `output`, appends a
/// newline, and starts a fresh line holding just the new word. The final
/// line is left in `line`, unrendered; a lone word longer than the width
/// keeps its own line.
pub fn align_words<'s>(
    source: &Vec<&'s str>,
    words: &mut Vec<&'s str>,
    line: &mut Line,
    line_width: usize,
    output: &mut String,
)
    requires
        old(words)@.len() == 0,
        old(line).words.0 == 0 && old(line).words.1 == 0 && old(line).length == 0,
        content_len(views(source@)) + source@.len() <= usize::MAX + 1,
    ensures
        final(words)@ == source@,
        final(line).wf(final(words)@),
        final(line).words.0 + final(line).words.1 == source@.len(),
        final(line).words.1 >= 1 ==> final(line).length + final(line).words.1 - 1 <= usize::MAX,
        final(line).words.1 == 0 ==> source@.len() == 0,
        final(output)@ == old(output)@ + pack_from(
            views(source@),
            0,
            Seq::empty(),
            line_width as nat,
        ).0,
        final(line).word_views(final(words)@) == pack_from(
            views(source@),
            0,
            Seq::empty(),
            line_width as nat,
        ).1,
{
    let ghost ws = views(source@);
    let ghost full = pack_from(ws, 0, Seq::<Seq<char>>::empty(), line_width as nat);
    let ghost out0 = output@;
    let n = source.len();
    proof {
        assert(line.word_views(words@) =~= Seq::<Seq<char>>::empty());
        assert(ws.skip(0) =~= ws);
        assert(words@ =~= source@.take(0));
    }

    let mut k: usize = 0;
    while k < n
        invariant
            k <= n,
            n == source@.len(),
            ws == views(source@),
            full == pack_from(ws, 0, Seq::<Seq<char>>::empty(), line_width as nat),
            words@ == source@.take(k as int),
            line.words.0 + line.words.1 == k,
            line.wf(words@),
            line.words.1 == 0 ==> k == 0,
            line.length + content_len(ws.skip(k as int)) + n <= usize::MAX + 1,
            output@ + pack_from(ws, k as int, line.word_views(words@), line_width as nat).0
                == out0 + full.0,
            pack_from(ws, k as int, line.word_views(words@), line_width as nat).1 == full.1,
        decreases n - k,
    {
        let word: &'s str = source[k];
        let ghost lv = line.word_views(words@);
        proof {
            assert(ws[k as int] == word@);
            assert(ws.skip(k as int) =~= seq![ws[k as int]] + ws.skip(k as int + 1));
            lemma_content_len_cat(seq![ws[k as int]], ws.skip(k as int + 1));
            assert(content_len(seq![ws[k as int]]) == ws[k as int].len()) by {
                assert(content_len(Seq::<Seq<char>>::empty()) == 0);
                assert(seq![ws[k as int]].len() == 1);
                assert(seq![ws[k as int]].last() == ws[k as int]);
                assert(seq![ws[k as int]].drop_last() =~= Seq::<Seq<char>>::empty());
            }
            assert(content_len(lv) == line.length);
        }

        let wlen = word.unicode_len();
        let length = wlen + line.length;
        let width = length + line.words.1;
        words.push(word);
        proof {
            assert(words@ =~= source@.take(k + 1));
            assert(line.word_views(words@) =~= lv);
        }

        if line.words.1 > 0 && width > line_width {
            // The word no longer fits: it seeds the next line, and the full
            // one is rendered, followed by a newline.
            let next = Line { words: (words.len() - 1, 1), length: wlen };
            let prev = *line;
            *line = next;
            let ghost prevout = output@;
            proof {
                assert(prev.word_views(words@) =~= lv);
            }
            prev.render(words.as_slice(), output, line_width);
            output.append("\n");
            proof {
                reveal_strlit("\n");
                assert("\n"@ =~= seq!['\n']);
                assert(line.word_views(words@) =~= seq![ws[k as int]]);
                assert(content_len(seq![ws[k as int]]) == line.length);
                let rest = pack_from(ws, k + 1, seq![ws[k as int]], line_width as nat);
                assert(pack_from(ws, k as int, lv, line_width as nat).0 == render_line(
                    lv,
                    line_width as nat,
                ) + seq!['\n'] + rest.0);
                assert(output@ + rest.0 =~= prevout + pack_from(
                    ws,
                    k as int,
                    lv,
                    line_width as nat,
                ).0);
            }
        } else {
            *line = Line { words: (line.words.0, line.words.1 + 1), length };
            proof {
                lemma_content_len_push(lv, ws[k as int]);
                assert(line.word_views(words@) =~= lv.push(ws[k as int]));
            }
        }
        k += 1;
    }

    proof {
        assert(words@ =~= source@);
        assert(ws.skip(n as int) =~= Seq::<Seq<char>>::empty());
        let packed = pack_from(ws, n as int, line.word_views(words@), line_width as nat);
        assert(packed.0 =~= Seq::<char>::empty());
        assert(output@ =~= output@ + packed.0);
        assert(output@ == out0 + full.0);
    }
}

/// Spaces to insert between words of a line: `words` words, separated width
/// `separated`, target width `max`. Returns `(padding, extra)`: `padding`
/// spaces at every gap, and one more at each of the leftmost `extra` gaps.
pub fn padding(words: usize, separated: usize, max: usize) -> (r: (usize, usize))
    requires
        separated <= max,
        words == 2 ==> max - separated < usize::MAX,
    ensures
        r.0 == padding_spec(words as nat, separated as nat, max as nat).0,
        r.1 == padding_spec(words as nat, separated as nat, max as nat).1,
{
    let diff = max - separated;

    if words == 0 {
        (0, 0)
    } else if diff == 0 {
        (if words != 1 { 1 } else { 0 }, 0)
    } else if diff < words {
        (1, diff)
    } else if words == 1 {
        (diff, 0)
    } else if words == 2 {
        (diff + 1, 0)
    } else {
        ((words - 1) / diff, words % diff)
    }
}

/// Justifies `input` to lines of `line_width` characters: words, split on
/// Unicode whitespace, are packed greedily; every line but the last is
/// stretched to exactly `line_width` characters by the padding rule, and the
/// last line is rendered without a trailing newline. A zero width or an
/// input that trims to empty is returned unchanged.
pub fn transform(input: &str, line_width: u32) -> (r: String)
    ensures
        r@ == transform_spec(input@, line_width as nat, false),
{
    justify_input(input, line_width, false)
}

/// The shared body of the two transform variants: `ascii` picks the
/// separator set used to split the input into words.
pub(crate) fn justify_input(input: &str, line_width: u32, ascii: bool) -> (r: String)
    ensures
        r@ == transform_spec(input@, line_width as nat, ascii),
{
    if line_width == 0 || is_blank(input) {
        return input.to_owned();
    }

    let source = split_words(input, ascii);

    // Words of the current, still growing line:
    let mut words: Vec<&str> = Vec::new();

    // Current line accumulator:
    let mut current_line = Line::default();

    // Result:
    let mut output = String::new();

    align_words(&source, &mut words, &mut current_line, line_width as usize, &mut output);

    // The last line never triggers a break inside the packer, so it is
    // rendered here, once, with no trailing newline.
    current_line.render(words.as_slice(), &mut output, line_width as usize);

    proof {
        assert(output@ == justify(words_of(space_pred(ascii), input@), line_width as nat));
    }
    output
}

} // verus!
