use vstd::prelude::*;
use vstd::std_specs::iter::IteratorSpec;
use crate::text::{trim, trim_start, trimmed, without_leading_space};

verus! {

/// The quote character that delimits a quoted field.
pub const QUOTE: char = '"';

/// The default separator.
pub const COMMA: char = ',';

/// Why a line could not be split into fields.
#[derive(Debug, Clone, Copy, PartialEq, Eq, Structural)]
pub enum ParseError {
    /// An opening quote has no matching closing quote before the end of the line.
    UnterminatedQuote,
}

/// Index of the first `c` in `s` at or after `i`, or `s.len()` if there is none.
pub open spec fn first_from(s: Seq<char>, c: char, i: int) -> int
    decreases s.len() - i,
{
    if i >= s.len() {
        s.len() as int
    } else if s[i] == c {
        i
    } else {
        first_from(s, c, i + 1)
    }
}

pub(crate) proof fn lemma_first_from(s: Seq<char>, c: char, i: int)
    requires
        0 <= i <= s.len(),
    ensures
        i <= first_from(s, c, i) <= s.len(),
        forall|k: int| i <= k < first_from(s, c, i) ==> s[k] != c,
        first_from(s, c, i) < s.len() ==> s[first_from(s, c, i)] == c,
    decreases s.len() - i,
{
    if i < s.len() && s[i] != c {
        lemma_first_from(s, c, i + 1);
    }
}

/// The value of the field whose text starts at `i`.
///
/// Without a quote before the next separator, the field is that text,
/// trimmed. Otherwise it is the whitespace-trimmed text before the opening
/// quote followed verbatim by what lies between the opening quote and the
/// next quote; the text after the closing quote, up to the next separator,
/// is dropped.
pub open spec fn field_value(s: Seq<char>, sep: char, i: int) -> Seq<char> {
    let sp = first_from(s, sep, i);
    let q = first_from(s, QUOTE, i);
    if sp <= q {
        trim(s.subrange(i, sp))
    } else {
        let c = first_from(s, QUOTE, q + 1);
        trim_start(s.subrange(i, q)) + s.subrange(q + 1, c)
    }
}

/// Where scanning resumes after the field that starts at `i`: the position
/// after its opening and closing quotes if it has them, else `i`.
pub open spec fn field_tail(s: Seq<char>, sep: char, i: int) -> int {
    let sp = first_from(s, sep, i);
    let q = first_from(s, QUOTE, i);
    if sp <= q {
        i
    } else {
        first_from(s, QUOTE, q + 1) + 1
    }
}

/// Whether the field that starts at `i` opens a quote that is never closed.
pub open spec fn field_unterminated(s: Seq<char>, sep: char, i: int) -> bool {
    let sp = first_from(s, sep, i);
    let q = first_from(s, QUOTE, i);
    q < sp && first_from(s, QUOTE, q + 1) >= s.len()
}

/// The fields of `s` from position `i` on, or `None` if one of them has an
/// unterminated quote.
pub open spec fn fields_from(s: Seq<char>, sep: char, i: int) -> Option<Seq<Seq<char>>>
    decreases s.len() - i,
    via fields_from_decreases
{
    if !(0 <= i <= s.len()) || field_unterminated(s, sep, i) {
        None
    } else {
        let e = first_from(s, sep, field_tail(s, sep, i));
        let f = field_value(s, sep, i);
        if e < s.len() {
            match fields_from(s, sep, e + 1) {
                Some(rest) => Some(seq![f] + rest),
                None => None,
            }
        } else {
            Some(seq![f])
        }
    }
}

#[via_fn]
proof fn fields_from_decreases(s: Seq<char>, sep: char, i: int) {
    if 0 <= i <= s.len() && !field_unterminated(s, sep, i) {
        lemma_first_from(s, sep, i);
        lemma_first_from(s, QUOTE, i);
        let q = first_from(s, QUOTE, i);
        if q < first_from(s, sep, i) {
            lemma_first_from(s, QUOTE, q + 1);
        }
        lemma_first_from(s, sep, field_tail(s, sep, i));
    }
}

/// The fields of a line split at `sep`: none for an empty line.
pub open spec fn line_fields(s: Seq<char>, sep: char) -> Option<Seq<Seq<char>>> {
    if s.len() == 0 {
        Some(Seq::empty())
    } else {
        fields_from(s, sep, 0)
    }
}

/// The fields that follow the next separator at or after `j`; none if no
/// separator follows.
pub open spec fn fields_after(s: Seq<char>, sep: char, j: int) -> Option<Seq<Seq<char>>> {
    let e = first_from(s, sep, j);
    if e < s.len() {
        fields_from(s, sep, e + 1)
    } else {
        Some(Seq::empty())
    }
}

/// `r` with the fields `a` put in front, if `r` holds fields.
pub open spec fn prefixed(a: Seq<Seq<char>>, r: Option<Seq<Seq<char>>>) -> Option<Seq<Seq<char>>> {
    match r {
        Some(rest) => Some(a + rest),
        None => None,
    }
}

/// The character sequences of a sequence of strings.
pub open spec fn views(v: Seq<String>) -> Seq<Seq<char>> {
    v.map_values(|x: String| x@)
}

proof fn lemma_prefixed_assoc(a: Seq<Seq<char>>, b: Seq<Seq<char>>, r: Option<Seq<Seq<char>>>)
    ensures
        prefixed(a, prefixed(b, r)) == prefixed(a + b, r),
{
    if let Some(rest) = r {
        assert(a + (b + rest) =~= (a + b) + rest);
    }
}

/// The field at `fs` runs to `sp` without a quote.
pub(crate) proof fn lemma_unquoted_field(s: Seq<char>, sep: char, fs: int, sp: int)
    requires
        sep != QUOTE,
        0 <= fs <= sp <= s.len(),
        forall|k: int| fs <= k < sp ==> s[k] != sep && s[k] != QUOTE,
        sp == s.len() || s[sp] == sep,
    ensures
        fields_from(s, sep, fs) == prefixed(
            seq![trim(s.subrange(fs, sp))],
            fields_after(s, sep, fs),
        ),
        fields_after(s, sep, fs) == (if sp < s.len() {
            fields_from(s, sep, sp + 1)
        } else {
            Some(Seq::<Seq<char>>::empty())
        }),
{
    lemma_first_from(s, sep, fs);
    lemma_first_from(s, QUOTE, fs);
    assert(first_from(s, sep, fs) == sp);
    assert(first_from(s, QUOTE, fs) >= sp);
}

/// The field at `fs` opens a quote at `q`, and the next quote is at `c`
/// (`s.len()` if there is none).
pub(crate) proof fn lemma_quoted_field(s: Seq<char>, sep: char, fs: int, q: int, c: int)
    requires
        sep != QUOTE,
        0 <= fs <= q < c <= s.len(),
        forall|k: int| fs <= k < q ==> s[k] != sep && s[k] != QUOTE,
        s[q] == QUOTE,
        forall|k: int| q < k < c ==> s[k] != QUOTE,
        c == s.len() || s[c] == QUOTE,
    ensures
        c == s.len() ==> fields_from(s, sep, fs) is None,
        c < s.len() ==> fields_from(s, sep, fs) == prefixed(
            seq![trim_start(s.subrange(fs, q)) + s.subrange(q + 1, c)],
            fields_after(s, sep, c + 1),
        ),
{
    lemma_first_from(s, sep, fs);
    lemma_first_from(s, QUOTE, fs);
    lemma_first_from(s, QUOTE, q + 1);
    assert(first_from(s, QUOTE, fs) == q);
    assert(first_from(s, sep, fs) > q);
    assert(first_from(s, QUOTE, q + 1) == c);
}

/// After a closing quote, the next separator at or after `j` is at `e`.
pub(crate) proof fn lemma_after_close(s: Seq<char>, sep: char, j: int, e: int)
    requires
        0 <= j <= e <= s.len(),
        forall|k: int| j <= k < e ==> s[k] != sep,
        e == s.len() || s[e] == sep,
    ensures
        fields_after(s, sep, j) == (if e < s.len() {
            fields_from(s, sep, e + 1)
        } else {
            Some(Seq::<Seq<char>>::empty())
        }),
{
    lemma_first_from(s, sep, j);
    assert(first_from(s, sep, j) == e);
}

/// Where the scan of a line stands.
#[derive(PartialEq, Eq, Structural)]
pub enum ScanState {
    /// In an unquoted field, or before the opening quote of a field.
    Normal,
    /// Between an opening quote and its closing quote.
    InQuotes,
    /// After a closing quote; characters up to the next separator are dropped.
    AwaitingSeparator,
}

/// The scan state after reading `ch` in state `st`.
pub open spec fn step(st: ScanState, ch: char, sep: char) -> ScanState {
    match st {
        ScanState::Normal => if ch == QUOTE {
            ScanState::InQuotes
        } else {
            ScanState::Normal
        },
        ScanState::InQuotes => if ch == QUOTE {
            ScanState::AwaitingSeparator
        } else {
            ScanState::InQuotes
        },
        ScanState::AwaitingSeparator => if ch == sep {
            ScanState::Normal
        } else {
            ScanState::AwaitingSeparator
        },
    }
}

/// The scan state after reading the first `j` characters of `s`.
pub open spec fn scan_state(s: Seq<char>, sep: char, j: int) -> ScanState
    decreases j,
{
    if j <= 0 || j > s.len() {
        ScanState::Normal
    } else {
        step(scan_state(s, sep, j - 1), s[j - 1], sep)
    }
}

/// How many of the first `j` characters of `s` are separators that stand
/// outside a quoted region.
pub open spec fn outside_separators(s: Seq<char>, sep: char, j: int) -> int
    decreases j,
{
    if j <= 0 || j > s.len() {
        0
    } else {
        outside_separators(s, sep, j - 1) + if s[j - 1] == sep && scan_state(s, sep, j - 1)
            != ScanState::InQuotes {
            1int
        } else {
            0int
        }
    }
}

/// Splits `line` into its fields at each `separator` that stands outside a
/// quoted region: exactly the fields of `line_fields`, or `UnterminatedQuote`
/// when a quote opened in the line is never closed.
pub fn parse_line_sep(line: &str, separator: char) -> (r: Result<Vec<String>, ParseError>)
    requires
        separator != QUOTE,
    ensures
        match r {
            Ok(v) => line_fields(line@, separator) == Some(views(v@)),
            Err(e) => line_fields(line@, separator) is None && e == ParseError::UnterminatedQuote,
        },
{
    broadcast use vstd::string::axiom_spec_iter, vstd::string::next_postcondition;

    let ghost s = line@;
    let ghost n = s.len() as int;
    let ghost target = fields_from(s, separator, 0);
    let mut out: Vec<String> = Vec::new();
    let mut buf: Vec<char> = Vec::new();
    let mut state = ScanState::Normal;
    let mut at_start = true;
    let ghost mut i: int = 0;
    let ghost mut fs: int = 0;
    let ghost mut q: int = 0;
    let ghost mut c: int = 0;
    let mut it = line.chars();
    assert(views(out@) =~= Seq::<Seq<char>>::empty());
    assert(buf@ =~= s.subrange(0, 0));
    loop
        invariant
            separator != QUOTE,
            0 <= fs <= i <= n,
            n == s.len(),
            it.remaining() == s.subrange(i, n),
            at_start == (i == 0),
            state == ScanState::Normal ==> {
                &&& forall|k: int| fs <= k < i ==> s[k] != separator && s[k] != QUOTE
                &&& buf@ == s.subrange(fs, i)
                &&& prefixed(views(out@), fields_from(s, separator, fs)) == target
            },
            state == ScanState::InQuotes ==> {
                &&& fs <= q < i
                &&& s[q] == QUOTE
                &&& forall|k: int| fs <= k < q ==> s[k] != separator && s[k] != QUOTE
                &&& forall|k: int| q < k < i ==> s[k] != QUOTE
                &&& buf@ == trim_start(s.subrange(fs, q)) + s.subrange(q + 1, i)
                &&& prefixed(views(out@), fields_from(s, separator, fs)) == target
            },
            state == ScanState::AwaitingSeparator ==> {
                &&& 0 <= c < i
                &&& buf@.len() == 0
                &&& forall|k: int| c + 1 <= k < i ==> s[k] != separator
                &&& prefixed(views(out@), fields_after(s, separator, c + 1)) == target
            },
        ensures
            i == n,
        decreases n - i,
    {
        let next = it.next();
        match next {
            None => {
                assert(s.subrange(i, n).len() == 0);
                break;
            },
            Some(ch) => {
                assert(ch == s[i]);
                at_start = false;
                match state {
                    ScanState::Normal => {
                        if ch == QUOTE {
                            buf = without_leading_space(&buf);
                            state = ScanState::InQuotes;
                            proof {
                                q = i;
                            }
                        } else if ch == separator {
                            let f = trimmed(&buf);
                            proof {
                                lemma_unquoted_field(s, separator, fs, i);
                                lemma_prefixed_assoc(views(out@), seq![f@], fields_from(s, separator, i + 1));
                            }
                            let ghost before = views(out@);
                            out.push(f);
                            buf = Vec::new();
                            proof {
                                assert(views(out@) =~= before + seq![f@]);
                                fs = i + 1;
                            }
                        } else {
                            buf.push(ch);
                        }
                    },
                    ScanState::InQuotes => {
                        if ch == QUOTE {
                            let f = crate::text::string_of(&buf, 0, buf.len());
                            proof {
                                assert(buf@.subrange(0, buf@.len() as int) =~= buf@);
                                lemma_quoted_field(s, separator, fs, q, i);
                                lemma_prefixed_assoc(views(out@), seq![f@], fields_after(s, separator, i + 1));
                            }
                            let ghost before = views(out@);
                            out.push(f);
                            buf = Vec::new();
                            state = ScanState::AwaitingSeparator;
                            proof {
                                assert(views(out@) =~= before + seq![f@]);
                                c = i;
                            }
                        } else {
                            buf.push(ch);
                        }
                    },
                    ScanState::AwaitingSeparator => {
                        if ch == separator {
                            proof {
                                lemma_after_close(s, separator, c + 1, i);
                                fs = i + 1;
                            }
                            state = ScanState::Normal;
                        }
                    },
                }
                proof {
                    i = i + 1;
                    if state == ScanState::Normal {
                        assert(buf@ =~= s.subrange(fs, i));
                    } else if state == ScanState::InQuotes {
                        assert(buf@ =~= trim_start(s.subrange(fs, q)) + s.subrange(q + 1, i));
                    }
                }
            },
        }
    }
    if at_start {
        return Ok(Vec::new());
    }
    match state {
        ScanState::Normal => {
            let f = trimmed(&buf);
            proof {
                lemma_unquoted_field(s, separator, fs, n);
            }
            let ghost before = views(out@);
            out.push(f);
            assert(views(out@) =~= before + seq![f@]);
            Ok(out)
        },
        ScanState::InQuotes => {
            proof {
                lemma_quoted_field(s, separator, fs, q, n);
            }
            Err(ParseError::UnterminatedQuote)
        },
        ScanState::AwaitingSeparator => {
            proof {
                lemma_after_close(s, separator, c + 1, n);
            }
            Ok(out)
        },
    }
}

/// Splits `line` into its fields at each comma that stands outside a quoted
/// region.
pub fn parse_line(line: &str) -> (r: Result<Vec<String>, ParseError>)
    ensures
        match r {
            Ok(v) => line_fields(line@, COMMA) == Some(views(v@)),
            Err(e) => line_fields(line@, COMMA) is None && e == ParseError::UnterminatedQuote,
        },
{
    parse_line_sep(line, COMMA)
}

} // verus!
