use vstd::prelude::*;
use crate::text::{is_space, trim_start, trim_end};
use crate::tokenizer::{
    field_value, field_tail, field_unterminated,
    QUOTE, ScanState, scan_state, step, outside_separators, first_from, fields_from,
    line_fields, lemma_first_from, lemma_unquoted_field, lemma_quoted_field, lemma_after_close,
};

verus! {

/// Over `[a, b)` the scan stays in state `st` and meets no separator that
/// counts as outside a quoted region.
proof fn lemma_run(s: Seq<char>, sep: char, st: ScanState, a: int, b: int)
    requires
        0 <= a <= b <= s.len(),
        scan_state(s, sep, a) == st,
        forall|k: int|
            a <= k < b ==> step(st, #[trigger] s[k], sep) == st && (st != ScanState::InQuotes
                ==> s[k] != sep),
    ensures
        scan_state(s, sep, b) == st,
        outside_separators(s, sep, b) == outside_separators(s, sep, a),
    decreases b - a,
{
    if a < b {
        lemma_run(s, sep, st, a, b - 1);
        assert(step(st, s[b - 1], sep) == st);
    }
}

/// From a field start where the scan is in its normal state, the remaining
/// fields fail exactly when the scan ends inside quotes, and otherwise number
/// one more than the separators still ahead outside quotes.
proof fn lemma_count_from(s: Seq<char>, sep: char, i: int)
    requires
        sep != QUOTE,
        0 <= i <= s.len(),
        scan_state(s, sep, i) == ScanState::Normal,
    ensures
        fields_from(s, sep, i) is None <==> scan_state(s, sep, s.len() as int)
            == ScanState::InQuotes,
        fields_from(s, sep, i) is Some ==> fields_from(s, sep, i)->0.len() == outside_separators(
            s,
            sep,
            s.len() as int,
        ) - outside_separators(s, sep, i) + 1,
    decreases s.len() - i,
{
    let n = s.len() as int;
    lemma_first_from(s, sep, i);
    lemma_first_from(s, QUOTE, i);
    let sp = first_from(s, sep, i);
    let q = first_from(s, QUOTE, i);
    if sp <= q {
        lemma_run(s, sep, ScanState::Normal, i, sp);
        lemma_unquoted_field(s, sep, i, sp);
        if sp < n {
            lemma_count_from(s, sep, sp + 1);
        }
    } else {
        lemma_run(s, sep, ScanState::Normal, i, q);
        lemma_first_from(s, QUOTE, q + 1);
        let c = first_from(s, QUOTE, q + 1);
        lemma_run(s, sep, ScanState::InQuotes, q + 1, c);
        lemma_quoted_field(s, sep, i, q, c);
        if c < n {
            lemma_first_from(s, sep, c + 1);
            let e = first_from(s, sep, c + 1);
            lemma_run(s, sep, ScanState::AwaitingSeparator, c + 1, e);
            lemma_after_close(s, sep, c + 1, e);
            if e < n {
                lemma_count_from(s, sep, e + 1);
            }
        }
    }
}

/// A line fails to split exactly when its scan ends inside quotes; otherwise
/// it has one field more than it has separators outside quoted regions, and
/// the empty line has none.
pub proof fn law_field_count(line: Seq<char>, sep: char)
    requires
        sep != QUOTE,
    ensures
        line_fields(line, sep) is None <==> scan_state(line, sep, line.len() as int)
            == ScanState::InQuotes,
        line_fields(line, sep) is Some ==> line_fields(line, sep)->0.len() == if line.len() == 0 {
            0
        } else {
            outside_separators(line, sep, line.len() as int) + 1
        },
{
    if line.len() > 0 {
        lemma_count_from(line, sep, 0);
    }
}

/// No character of `s` is a quote.
pub open spec fn quote_free(s: Seq<char>) -> bool {
    forall|k: int| 0 <= k < s.len() ==> s[k] != QUOTE
}

/// `f` between quotes.
pub open spec fn quoted(f: Seq<char>) -> Seq<char> {
    seq![QUOTE] + f + seq![QUOTE]
}

/// The fields written back as one line: each between quotes, one `sep`
/// between each two.
pub open spec fn joined(fields: Seq<Seq<char>>, sep: char) -> Seq<char>
    decreases fields.len(),
{
    if fields.len() == 0 {
        Seq::empty()
    } else if fields.len() == 1 {
        quoted(fields[0])
    } else {
        quoted(fields[0]) + seq![sep] + joined(fields.drop_first(), sep)
    }
}

/// A quoted field, alone on its line, is its content verbatim, whatever
/// whitespace or separators that content holds.
pub proof fn law_quoted_field_verbatim(s: Seq<char>, sep: char)
    requires
        sep != QUOTE,
        quote_free(s),
    ensures
        line_fields(quoted(s), sep) == Some(seq![s]),
{
    let t = quoted(s);
    let n = t.len() as int;
    assert forall|k: int| 0 < k < n - 1 implies t[k] != QUOTE by {
        assert(t[k] == s[k - 1]);
    }
    lemma_quoted_field(t, sep, 0, 0, n - 1);
    lemma_after_close(t, sep, n, n);
    assert(t.subrange(0, 0) =~= Seq::<char>::empty());
    assert(t.subrange(1, n - 1) =~= s);
    assert(trim_start(Seq::<char>::empty()) == Seq::<char>::empty());
    assert(seq![Seq::<char>::empty() + s] + Seq::<Seq<char>>::empty() =~= seq![s]);
}

proof fn lemma_first_from_shift(p: Seq<char>, u: Seq<char>, c: char, j: int)
    requires
        0 <= j <= u.len(),
    ensures
        first_from(p + u, c, p.len() + j) == p.len() + first_from(u, c, j),
    decreases u.len() - j,
{
    if j < u.len() {
        assert((p + u)[p.len() + j] == u[j]);
        lemma_first_from_shift(p, u, c, j + 1);
    }
}

/// Splitting a line from a position after some prefix does not depend on
/// that prefix.
proof fn lemma_fields_shift(p: Seq<char>, u: Seq<char>, sep: char, j: int)
    requires
        sep != QUOTE,
        0 <= j <= u.len(),
    ensures
        fields_from(p + u, sep, p.len() + j) == fields_from(u, sep, j),
    decreases u.len() - j,
{
    let t = p + u;
    let o = p.len() as int;
    lemma_first_from(u, sep, j);
    lemma_first_from(u, QUOTE, j);
    lemma_first_from_shift(p, u, sep, j);
    lemma_first_from_shift(p, u, QUOTE, j);
    let sp = first_from(u, sep, j);
    let q = first_from(u, QUOTE, j);
    if sp <= q {
        assert(t.subrange(o + j, o + sp) =~= u.subrange(j, sp));
        assert(field_value(t, sep, o + j) == field_value(u, sep, j));
        assert(field_tail(t, sep, o + j) == o + field_tail(u, sep, j));
    } else {
        lemma_first_from(u, QUOTE, q + 1);
        lemma_first_from_shift(p, u, QUOTE, q + 1);
        let c = first_from(u, QUOTE, q + 1);
        assert(t.subrange(o + j, o + q) =~= u.subrange(j, q));
        assert(t.subrange(o + q + 1, o + c) =~= u.subrange(q + 1, c));
        assert(field_value(t, sep, o + j) == field_value(u, sep, j));
        assert(field_tail(t, sep, o + j) == o + field_tail(u, sep, j));
        assert(field_unterminated(t, sep, o + j) == field_unterminated(u, sep, j));
    }
    let ft = field_tail(u, sep, j);
    if !field_unterminated(u, sep, j) {
        if sp > q {
            lemma_first_from(u, QUOTE, q + 1);
        }
        lemma_first_from_shift(p, u, sep, ft);
        lemma_first_from(u, sep, ft);
        let e = first_from(u, sep, ft);
        if e < u.len() {
            lemma_fields_shift(p, u, sep, e + 1);
        }
    }
}

/// A line of quote-free fields written back by `joined` splits into those
/// same fields.
proof fn lemma_split_joined(fields: Seq<Seq<char>>, sep: char)
    requires
        sep != QUOTE,
        fields.len() >= 1,
        forall|k: int| 0 <= k < fields.len() ==> quote_free(#[trigger] fields[k]),
    ensures
        joined(fields, sep).len() > 0,
        fields_from(joined(fields, sep), sep, 0) == Some(fields),
    decreases fields.len(),
{
    let f = fields[0];
    if fields.len() == 1 {
        law_quoted_field_verbatim(f, sep);
        assert(seq![f] =~= fields);
    } else {
        let rest = fields.drop_first();
        assert forall|k: int| 0 <= k < rest.len() implies quote_free(#[trigger] rest[k]) by {
            assert(rest[k] == fields[k + 1]);
        }
        lemma_split_joined(rest, sep);
        let p = quoted(f) + seq![sep];
        let u = joined(rest, sep);
        let t = p + u;
        assert(t == joined(fields, sep));
        let c = f.len() + 1int;
        assert forall|k: int| 0 < k < c implies t[k] != QUOTE by {
            assert(t[k] == f[k - 1]);
        }
        assert(t[c] == QUOTE);
        assert(t[c + 1] == sep);
        lemma_quoted_field(t, sep, 0, 0, c);
        lemma_after_close(t, sep, c + 1, c + 1);
        lemma_fields_shift(p, u, sep, 0);
        assert(t.subrange(0, 0) =~= Seq::<char>::empty());
        assert(t.subrange(1, c) =~= f);
        assert(trim_start(Seq::<char>::empty()) == Seq::<char>::empty());
        assert(Seq::<char>::empty() + f =~= f);
        assert(seq![f] + rest =~= fields);
    }
}

proof fn lemma_trim_start_quote_free(s: Seq<char>)
    requires
        quote_free(s),
    ensures
        quote_free(trim_start(s)),
    decreases s.len(),
{
    if s.len() > 0 && is_space(s[0]) {
        lemma_trim_start_quote_free(s.drop_first());
    }
}

proof fn lemma_trim_end_quote_free(s: Seq<char>)
    requires
        quote_free(s),
    ensures
        quote_free(trim_end(s)),
    decreases s.len(),
{
    if s.len() > 0 && is_space(s.last()) {
        lemma_trim_end_quote_free(s.drop_last());
    }
}

/// No field that a split yields holds a quote.
proof fn lemma_fields_quote_free(s: Seq<char>, sep: char, i: int)
    requires
        sep != QUOTE,
        fields_from(s, sep, i) is Some,
    ensures
        forall|k: int|
            0 <= k < fields_from(s, sep, i)->0.len() ==> quote_free(
                #[trigger] fields_from(s, sep, i)->0[k],
            ),
    decreases s.len() - i,
{
    lemma_first_from(s, sep, i);
    lemma_first_from(s, QUOTE, i);
    let sp = first_from(s, sep, i);
    let q = first_from(s, QUOTE, i);
    if sp <= q {
        let raw = s.subrange(i, sp);
        lemma_trim_start_quote_free(raw);
        lemma_trim_end_quote_free(trim_start(raw));
    } else {
        lemma_first_from(s, QUOTE, q + 1);
        lemma_trim_start_quote_free(s.subrange(i, q));
        let c = first_from(s, QUOTE, q + 1);
        let v = trim_start(s.subrange(i, q)) + s.subrange(q + 1, c);
        assert(quote_free(v));
    }
    let e = first_from(s, sep, field_tail(s, sep, i));
    if sp > q {
        lemma_first_from(s, QUOTE, q + 1);
    }
    lemma_first_from(s, sep, field_tail(s, sep, i));
    let fs = fields_from(s, sep, i)->0;
    if e < s.len() {
        lemma_fields_quote_free(s, sep, e + 1);
        let rest = fields_from(s, sep, e + 1)->0;
        assert forall|k: int| 0 <= k < fs.len() implies quote_free(#[trigger] fs[k]) by {
            if k > 0 {
                assert(fs[k] == rest[k - 1]);
            }
        }
    }
}

/// Writing the fields of a line back, each quoted and joined by the
/// separator, and splitting that again gives the same fields.
pub proof fn law_split_after_join(line: Seq<char>, sep: char)
    requires
        sep != QUOTE,
        line_fields(line, sep) is Some,
    ensures
        line_fields(joined(line_fields(line, sep)->0, sep), sep) == line_fields(line, sep),
{
    let fields = line_fields(line, sep)->0;
    if fields.len() > 0 {
        lemma_fields_quote_free(line, sep, 0);
        lemma_split_joined(fields, sep);
    }
}

} // verus!
