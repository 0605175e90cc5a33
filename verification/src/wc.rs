//! Line, word, byte and character counting, and the fixed-width field
//! rendering of the counts.
//!
//! A line is a stretch of text ended by a newline, or the unterminated rest
//! of the text. A word is a maximal run of non-whitespace characters. Byte
//! counts are those of the UTF-8 encoding of the text.

use crate::digits::{dec_digits, push_dec};
use crate::order::{compare_lines, LineOrder};
use vstd::prelude::*;
use vstd::string::{StrSliceExecFns, StringExecFns, StringSliceAdditionalSpecFns};

verus! {

/// The four counts of one input.
#[derive(Debug, PartialEq, Eq, Structural)]
pub struct FileInfo {
    pub num_lines: usize,
    pub num_words: usize,
    pub num_bytes: usize,
    pub num_chars: usize,
}

/// Named image of what `char::is_whitespace` returns: whether a character
/// has the Unicode White_Space property.
pub uninterp spec fn whitespace(c: char) -> bool;

/// Relies on char::is_whitespace: whether the character has the Unicode
/// White_Space property, a function of the character alone. The blank, tab
/// and newline characters are documented as whitespace.
#[verifier::external_body]
fn is_whitespace_char(c: char) -> (r: bool)
    ensures
        r == whitespace(c),
        c == ' ' ==> r,
        c == '\t' ==> r,
        c == '\n' ==> r,
{
    c.is_whitespace()
}

/// Newlines among the first `i` characters.
pub open spec fn newlines_up_to(s: Seq<char>, i: int) -> nat
    decreases i,
{
    if i <= 0 {
        0
    } else {
        newlines_up_to(s, i - 1) + (if s[i - 1] == '\n' {
            1nat
        } else {
            0nat
        })
    }
}

/// Word starts among the first `i` characters: positions where a
/// non-whitespace character follows the start of the text or a whitespace
/// character.
pub open spec fn words_up_to(s: Seq<char>, i: int) -> nat
    decreases i,
{
    if i <= 0 {
        0
    } else {
        words_up_to(s, i - 1) + (if !whitespace(s[i - 1]) && (i - 1 == 0 || whitespace(
            s[i - 2],
        )) {
            1nat
        } else {
            0nat
        })
    }
}

/// How many lines a text holds: one per newline, plus one for a final
/// unterminated line.
pub open spec fn line_count(s: Seq<char>) -> nat {
    newlines_up_to(s, s.len() as int) + (if s.len() > 0 && s.last() != '\n' {
        1nat
    } else {
        0nat
    })
}

/// How many whitespace-separated words a text holds.
pub open spec fn word_count(s: Seq<char>) -> nat {
    words_up_to(s, s.len() as int)
}

/// Neither count can exceed the number of characters inspected.
proof fn lemma_counts_bounded(s: Seq<char>, i: int)
    ensures
        newlines_up_to(s, i) <= if i <= 0 {
            0int
        } else {
            i
        },
        words_up_to(s, i) <= if i <= 0 {
            0int
        } else {
            i
        },
    decreases i,
{
    if i > 0 {
        lemma_counts_bounded(s, i - 1);
    }
}

/// Count the lines, words, characters and UTF-8 bytes of a text in one
/// pass.
pub fn count(text: &str) -> (info: FileInfo)
    ensures
        info.num_lines == line_count(text@),
        info.num_words == word_count(text@),
        info.num_chars == text@.len(),
        info.num_bytes == text.spec_bytes().len() as usize,
{
    let n = text.unicode_len();
    let num_bytes = text.len();
    let mut num_lines: usize = 0;
    let mut num_words: usize = 0;
    let mut prev_ws = true;
    let mut i: usize = 0;
    while i < n
        invariant
            i <= n,
            n == text@.len(),
            num_lines == newlines_up_to(text@, i as int),
            num_words == words_up_to(text@, i as int),
            num_lines <= i,
            num_words <= i,
            prev_ws == (i == 0 || whitespace(text@[i as int - 1])),
        decreases n - i,
    {
        let c = text.get_char(i);
        if c == '\n' {
            num_lines = num_lines + 1;
        }
        let ws = is_whitespace_char(c);
        if !ws && prev_ws {
            num_words = num_words + 1;
        }
        prev_ws = ws;
        i = i + 1;
    }
    if n > 0 {
        let last = text.get_char(n - 1);
        if last != '\n' {
            proof {
                lemma_counts_bounded(text@, n as int - 1);
                assert(newlines_up_to(text@, n as int) <= n - 1);
            }
            num_lines = num_lines + 1;
        }
    }
    FileInfo { num_lines, num_words, num_bytes, num_chars: n }
}

/// A run of blank characters.
pub open spec fn spaces(n: nat) -> Seq<char>
    decreases n,
{
    if n == 0 {
        Seq::empty()
    } else {
        spaces((n - 1) as nat) + seq![' ']
    }
}

/// A count rendered right-aligned in an eight-column field, or left out
/// entirely when its flag is off.
pub open spec fn field_text(value: nat, show: bool) -> Seq<char> {
    if show {
        if dec_digits(value).len() >= 8 {
            dec_digits(value)
        } else {
            spaces((8 - dec_digits(value).len()) as nat) + dec_digits(value)
        }
    } else {
        Seq::empty()
    }
}

/// Render one count for the per-file report line: right-aligned in an
/// eight-column field when selected, empty when not.
pub fn format_field(value: usize, show: bool) -> (r: String)
    ensures
        r@ == field_text(value as nat, show),
{
    if !show {
        return String::new();
    }
    let mut digits = String::new();
    push_dec(&mut digits, value);
    proof {
        assert(digits@ =~= dec_digits(value as nat));
    }
    let width = digits.as_str().unicode_len();
    let mut out = String::new();
    if width < 8 {
        let pad = 8 - width;
        let mut k: usize = 0;
        while k < pad
            invariant
                k <= pad,
                out@ == spaces(k as nat),
            decreases pad - k,
        {
            out.append(" ");
            proof {
                reveal_strlit(" ");
                assert(out@ =~= spaces(k as nat + 1));
            }
            k = k + 1;
        }
    }
    out.append(digits.as_str());
    proof {
        if dec_digits(value as nat).len() >= 8 {
            assert(out@ =~= dec_digits(value as nat));
        }
    }
    out
}

/// What follows the counts on a report line: nothing for standard input,
/// otherwise a blank and the file's name.
pub open spec fn name_suffix(name: Seq<char>) -> Seq<char> {
    if name == "-"@ {
        Seq::empty()
    } else {
        seq![' '] + name
    }
}

/// One report line: the four fields in order, each rendered per its flag,
/// then the name suffix.
pub fn report_line(
    info: &FileInfo,
    show_lines: bool,
    show_words: bool,
    show_bytes: bool,
    show_chars: bool,
    filename: &str,
) -> (r: String)
    ensures
        r@ == field_text(info.num_lines as nat, show_lines) + field_text(
            info.num_words as nat,
            show_words,
        ) + field_text(info.num_bytes as nat, show_bytes) + field_text(
            info.num_chars as nat,
            show_chars,
        ) + name_suffix(filename@),
{
    let mut s = format_field(info.num_lines, show_lines);
    let words = format_field(info.num_words, show_words);
    s.append(words.as_str());
    let bytes = format_field(info.num_bytes, show_bytes);
    s.append(bytes.as_str());
    let chars = format_field(info.num_chars, show_chars);
    s.append(chars.as_str());
    let ghost fields = field_text(info.num_lines as nat, show_lines) + field_text(
        info.num_words as nat,
        show_words,
    ) + field_text(info.num_bytes as nat, show_bytes) + field_text(
        info.num_chars as nat,
        show_chars,
    );
    proof {
        assert(s@ =~= fields);
    }
    if !matches!(compare_lines(filename, "-"), LineOrder::Equal) {
        s.append(" ");
        s.append(filename);
        proof {
            reveal_strlit(" ");
            assert(s@ =~= fields + (seq![' '] + filename@));
        }
    } else {
        proof {
            assert(s@ =~= fields + name_suffix(filename@));
        }
    }
    s
}

} // verus!
