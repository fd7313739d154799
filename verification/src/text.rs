//! Character-level text handling: lines, comma-separated fields and the
//! conversions between `&str`, `String` and `Vec<char>`.
use vstd::prelude::*;

verus! {

/// The views of a sequence of character vectors.
pub open spec fn views(vs: Seq<Vec<char>>) -> Seq<Seq<char>> {
    vs.map_values(|v: Vec<char>| v@)
}

/// The views of a sequence of strings.
pub open spec fn string_views(vs: Seq<String>) -> Seq<Seq<char>> {
    vs.map_values(|s: String| s@)
}

/// Splits `s` at every occurrence of `sep`; the separators are dropped and
/// there is always at least one piece (`str::split` with a `char`).
pub open spec fn split_on(s: Seq<char>, sep: char) -> Seq<Seq<char>>
    decreases s.len(),
{
    if s.len() == 0 {
        seq![Seq::<char>::empty()]
    } else {
        let p = split_on(s.drop_last(), sep);
        if s.last() == sep {
            p.push(Seq::<char>::empty())
        } else {
            p.update(p.len() - 1, p.last().push(s.last()))
        }
    }
}

/// Whether the field separator `", "` starts at position `i` of `s`.
pub open spec fn field_sep_at(s: Seq<char>, i: int) -> bool {
    0 <= i < s.len() - 1 && s[i] == ',' && s[i + 1] == ' '
}

/// Whether `s` holds the field separator `", "`.
pub open spec fn has_field_sep(s: Seq<char>) -> bool {
    exists|i: int| #[trigger] field_sep_at(s, i)
}

/// Splits `s` at every occurrence of `", "`, left to right; there is always
/// at least one piece (`str::split` with the pattern `", "`).
pub open spec fn split_fields(s: Seq<char>) -> Seq<Seq<char>>
    decreases s.len(),
{
    if s.len() == 0 {
        seq![Seq::<char>::empty()]
    } else {
        let p = split_fields(s.drop_last());
        let cur = p.last();
        if s.last() == ' ' && cur.len() > 0 && cur.last() == ',' {
            p.update(p.len() - 1, cur.drop_last()).push(Seq::<char>::empty())
        } else {
            p.update(p.len() - 1, cur.push(s.last()))
        }
    }
}

/// A line without the `'\r'` that ends it, if any.
pub open spec fn strip_cr(l: Seq<char>) -> Seq<char> {
    if l.len() > 0 && l.last() == '\r' {
        l.drop_last()
    } else {
        l
    }
}

/// The lines of `s` as `str::lines` gives them: split at `'\n'`, a `'\r'`
/// just before a `'\n'` removed, and no empty last line after a final `'\n'`.
pub open spec fn lines(s: Seq<char>) -> Seq<Seq<char>> {
    let p = split_on(s, '\n');
    let body = p.drop_last().map_values(|l: Seq<char>| strip_cr(l));
    if p.last().len() == 0 {
        body
    } else {
        body.push(p.last())
    }
}

/// Whether `s` begins with `p`.
pub open spec fn starts_with(s: Seq<char>, p: Seq<char>) -> bool {
    p.len() <= s.len() && s.subrange(0, p.len() as int) == p
}

/// Whether `s` is empty or ends with a line break, so that text appended to
/// it starts a new line.
pub open spec fn at_line_start(s: Seq<char>) -> bool {
    s.len() == 0 || s.last() == '\n'
}

pub proof fn lemma_split_on_nonempty(s: Seq<char>, sep: char)
    ensures
        split_on(s, sep).len() >= 1,
    decreases s.len(),
{
    if s.len() > 0 {
        lemma_split_on_nonempty(s.drop_last(), sep);
    }
}

pub proof fn lemma_split_fields_nonempty(s: Seq<char>)
    ensures
        split_fields(s).len() >= 1,
    decreases s.len(),
{
    if s.len() > 0 {
        lemma_split_fields_nonempty(s.drop_last());
    }
}

/// A text without the separator is a single piece.
pub proof fn lemma_split_on_no_sep(s: Seq<char>, sep: char)
    requires
        !s.contains(sep),
    ensures
        split_on(s, sep) == seq![s],
    decreases s.len(),
{
    if s.len() > 0 {
        assert(!s.drop_last().contains(sep)) by {
            if s.drop_last().contains(sep) {
                let i = choose|i: int| 0 <= i < s.drop_last().len() && s.drop_last()[i] == sep;
                assert(s[i] == sep);
            }
        }
        lemma_split_on_no_sep(s.drop_last(), sep);
        assert(s[s.len() - 1] != sep);
        assert(s.drop_last().push(s.last()) =~= s);
        assert(seq![s.drop_last()].update(0, s.drop_last().push(s.last())) =~= seq![s]);
    } else {
        assert(s =~= Seq::<char>::empty());
    }
}

/// Splitting a concatenation whose first part ends at a separator.
pub proof fn lemma_split_on_append(a: Seq<char>, b: Seq<char>, sep: char)
    requires
        a.len() == 0 || a.last() == sep,
    ensures
        split_on(a + b, sep) == split_on(a, sep).drop_last() + split_on(b, sep),
    decreases b.len(),
{
    lemma_split_on_nonempty(a, sep);
    lemma_split_on_nonempty(b, sep);
    if b.len() == 0 {
        assert(a + b =~= a);
        if a.len() > 0 {
            lemma_split_on_nonempty(a.drop_last(), sep);
        }
        assert(split_on(a, sep).last() =~= Seq::<char>::empty());
        assert(split_on(a, sep).drop_last() + split_on(b, sep) =~= split_on(a, sep));
    } else {
        lemma_split_on_append(a, b.drop_last(), sep);
        lemma_split_on_nonempty(b.drop_last(), sep);
        assert((a + b).drop_last() =~= a + b.drop_last());
        assert((a + b).last() == b.last());
        let q = split_on(a, sep).drop_last();
        let r = split_on(b.drop_last(), sep);
        if b.last() == sep {
            assert((q + r).push(Seq::<char>::empty()) =~= q + r.push(Seq::<char>::empty()));
        } else {
            assert((q + r).update((q + r).len() - 1, (q + r).last().push(b.last())) =~= q + r.update(
                r.len() - 1,
                r.last().push(b.last()),
            ));
        }
    }
}

/// A text without the field separator is a single field.
pub proof fn lemma_split_fields_single(s: Seq<char>)
    requires
        !has_field_sep(s),
    ensures
        split_fields(s) == seq![s],
    decreases s.len(),
{
    if s.len() > 0 {
        let t = s.drop_last();
        assert(!has_field_sep(t)) by {
            if has_field_sep(t) {
                let i = choose|i: int| field_sep_at(t, i);
                assert(field_sep_at(s, i));
            }
        }
        lemma_split_fields_single(t);
        if s.last() == ' ' && t.len() > 0 && t.last() == ',' {
            assert(s[s.len() - 2] == t.last());
            assert(s[s.len() - 1] == s.last());
            assert(field_sep_at(s, s.len() - 2));
            assert(false);
        }
        assert(t.push(s.last()) =~= s);
        assert(seq![t].update(0, t.push(s.last())) =~= seq![s]);
    } else {
        assert(s =~= Seq::<char>::empty());
    }
}

/// `x ++ ", " ++ y` splits into `x` followed by the fields of `y`, when `x`
/// holds no separator.
pub proof fn lemma_split_fields_prefix(x: Seq<char>, y: Seq<char>)
    requires
        !has_field_sep(x),
    ensures
        split_fields(x + seq![',', ' '] + y) == seq![x] + split_fields(y),
    decreases y.len(),
{
    lemma_split_fields_nonempty(y);
    if y.len() == 0 {
        let xc = x.push(',');
        assert(!has_field_sep(xc)) by {
            if has_field_sep(xc) {
                let i = choose|i: int| field_sep_at(xc, i);
                assert(i < x.len() - 1);
                assert(field_sep_at(x, i));
            }
        }
        lemma_split_fields_single(xc);
        let s = x + seq![',', ' '] + y;
        assert(s.drop_last() =~= xc);
        assert(s.last() == ' ');
        assert(xc.drop_last() =~= x);
        assert(seq![xc].update(0, x).push(Seq::<char>::empty()) =~= seq![x] + split_fields(y));
    } else {
        let s = x + seq![',', ' '] + y;
        lemma_split_fields_prefix(x, y.drop_last());
        lemma_split_fields_nonempty(y.drop_last());
        assert(s.drop_last() =~= x + seq![',', ' '] + y.drop_last());
        assert(s.last() == y.last());
        let r = split_fields(y.drop_last());
        let p = seq![x] + r;
        assert(p.last() == r.last());
        if y.last() == ' ' && r.last().len() > 0 && r.last().last() == ',' {
            assert(p.update(p.len() - 1, r.last().drop_last()).push(Seq::<char>::empty())
                =~= seq![x] + r.update(r.len() - 1, r.last().drop_last()).push(
                Seq::<char>::empty(),
            ));
        } else {
            assert(p.update(p.len() - 1, r.last().push(y.last())) =~= seq![x] + r.update(
                r.len() - 1,
                r.last().push(y.last()),
            ));
        }
    }
}

/// Appending a line of text (without a line break inside it) to a text that
/// is at a line start adds exactly that line.
pub proof fn lemma_lines_append_line(a: Seq<char>, body: Seq<char>)
    requires
        at_line_start(a),
        !body.contains('\n'),
    ensures
        lines(a + body.push('\n')) == lines(a).push(strip_cr(body)),
{
    let b = body.push('\n');
    lemma_split_on_append(a, b, '\n');
    lemma_split_on_no_sep(body, '\n');
    assert(b.drop_last() =~= body);
    assert(split_on(b, '\n') =~= seq![body, Seq::<char>::empty()]);
    lemma_split_on_nonempty(a, '\n');
    if a.len() > 0 {
        lemma_split_on_nonempty(a.drop_last(), '\n');
    }
    let pa = split_on(a, '\n');
    assert(pa.last() =~= Seq::<char>::empty());
    let p = split_on(a + b, '\n');
    assert(p =~= pa.drop_last() + seq![body, Seq::<char>::empty()]);
    assert(p.drop_last() =~= pa.drop_last().push(body));
    assert(p.drop_last().map_values(|l: Seq<char>| strip_cr(l)) =~= pa.drop_last().map_values(
        |l: Seq<char>| strip_cr(l),
    ).push(strip_cr(body)));
}

/// No piece of a split holds the separator.
pub proof fn lemma_split_on_pieces(s: Seq<char>, sep: char)
    ensures
        forall|i: int|
            0 <= i < split_on(s, sep).len() ==> !(#[trigger] split_on(s, sep)[i]).contains(sep),
    decreases s.len(),
{
    if s.len() > 0 {
        lemma_split_on_pieces(s.drop_last(), sep);
        lemma_split_on_nonempty(s.drop_last(), sep);
        let p = split_on(s.drop_last(), sep);
        if s.last() != sep {
            let q = p.update(p.len() - 1, p.last().push(s.last()));
            assert forall|i: int| 0 <= i < q.len() implies !(#[trigger] q[i]).contains(sep) by {
                if i == q.len() - 1 {
                    if q[i].contains(sep) {
                        let j = choose|j: int| 0 <= j < q[i].len() && q[i][j] == sep;
                        if j < p.last().len() {
                            assert(p.last()[j] == sep);
                        }
                    }
                } else {
                    assert(q[i] == p[i]);
                }
            }
        } else {
            let q = p.push(Seq::<char>::empty());
            assert forall|i: int| 0 <= i < q.len() implies !(#[trigger] q[i]).contains(sep) by {
                if i < p.len() {
                    assert(q[i] == p[i]);
                }
            }
        }
    }
}

/// No line holds a line break.
pub proof fn lemma_lines_no_break(s: Seq<char>)
    ensures
        forall|i: int| 0 <= i < lines(s).len() ==> !(#[trigger] lines(s)[i]).contains('\n'),
{
    lemma_split_on_pieces(s, '\n');
    lemma_split_on_nonempty(s, '\n');
    let p = split_on(s, '\n');
    let ls = lines(s);
    assert forall|i: int| 0 <= i < ls.len() implies !(#[trigger] ls[i]).contains('\n') by {
        assert(!p[i].contains('\n'));
        if i < p.len() - 1 {
            assert(ls[i] == strip_cr(p[i]));
            if ls[i].contains('\n') {
                let j = choose|j: int| 0 <= j < ls[i].len() && ls[i][j] == '\n';
                assert(p[i][j] == '\n');
            }
        }
    }
}

/// The lines of a text at a line start followed by more text are the lines
/// of both parts.
pub proof fn lemma_lines_concat(a: Seq<char>, b: Seq<char>)
    requires
        at_line_start(a),
    ensures
        lines(a + b) == lines(a) + lines(b),
{
    lemma_split_on_append(a, b, '\n');
    lemma_split_on_nonempty(a, '\n');
    lemma_split_on_nonempty(b, '\n');
    if a.len() > 0 {
        lemma_split_on_nonempty(a.drop_last(), '\n');
    }
    let pa = split_on(a, '\n');
    let pb = split_on(b, '\n');
    let p = split_on(a + b, '\n');
    assert(pa.last() =~= Seq::<char>::empty());
    assert(p.last() == pb.last());
    assert(p.drop_last() =~= pa.drop_last() + pb.drop_last());
    let f = |l: Seq<char>| strip_cr(l);
    assert(p.drop_last().map_values(f) =~= pa.drop_last().map_values(f) + pb.drop_last().map_values(
        f,
    ));
    assert(lines(a) == pa.drop_last().map_values(f));
    if pb.last().len() > 0 {
        assert(lines(a + b) =~= lines(a) + lines(b));
    } else {
        assert(lines(a + b) =~= lines(a) + lines(b));
    }
}

/// Splitting a text that starts with a part without the separator: that
/// part is glued to the front of the first piece.
pub proof fn lemma_split_on_prefix(x: Seq<char>, y: Seq<char>, sep: char)
    requires
        !x.contains(sep),
    ensures
        split_on(x + y, sep) == split_on(y, sep).update(0, x + split_on(y, sep)[0]),
    decreases y.len(),
{
    lemma_split_on_nonempty(y, sep);
    if y.len() == 0 {
        lemma_split_on_no_sep(x, sep);
        assert(x + y =~= x);
        assert(split_on(y, sep).update(0, x + split_on(y, sep)[0]) =~= seq![x]);
    } else {
        let y0 = y.drop_last();
        lemma_split_on_prefix(x, y0, sep);
        lemma_split_on_nonempty(y0, sep);
        assert((x + y).drop_last() =~= x + y0);
        assert((x + y).last() == y.last());
        let q = split_on(y0, sep);
        let pq = q.update(0, x + q[0]);
        if y.last() == sep {
            assert(pq.push(Seq::<char>::empty()) =~= q.push(Seq::<char>::empty()).update(
                0,
                x + q.push(Seq::<char>::empty())[0],
            ));
        } else {
            let q2 = q.update(q.len() - 1, q.last().push(y.last()));
            if q.len() == 1 {
                assert((x + q[0]).push(y.last()) =~= x + q[0].push(y.last()));
                assert(pq.update(pq.len() - 1, pq.last().push(y.last())) =~= q2.update(
                    0,
                    x + q2[0],
                ));
            } else {
                assert(pq.update(pq.len() - 1, pq.last().push(y.last())) =~= q2.update(
                    0,
                    x + q2[0],
                ));
            }
        }
    }
}

/// The first line of a text that starts with a part without a line break
/// (and not ending with `'\r'`) and ends with a line break starts with that
/// part.
pub proof fn lemma_first_line(x: Seq<char>, y: Seq<char>)
    requires
        !x.contains('\n'),
        x.len() > 0,
        x.last() != '\r',
    ensures
        lines(x + y.push('\n')).len() >= 1,
        lines(x + y.push('\n'))[0] == x + strip_cr(split_on(y.push('\n'), '\n')[0]),
{
    let yn = y.push('\n');
    lemma_split_on_prefix(x, yn, '\n');
    lemma_split_on_nonempty(y, '\n');
    assert(yn.drop_last() =~= y);
    let q = split_on(yn, '\n');
    assert(q == split_on(y, '\n').push(Seq::<char>::empty()));
    let p = split_on(x + yn, '\n');
    assert(p.len() >= 2);
    let q0 = q[0];
    assert(p[0] == x + q0);
    let ls = lines(x + yn);
    assert(ls[0] == strip_cr(p[0]));
    if q0.len() > 0 {
        assert((x + q0).last() == q0.last());
        assert((x + q0).drop_last() =~= x + q0.drop_last());
    } else {
        assert(x + q0 =~= x);
    }
    assert(strip_cr(x + q0) =~= x + strip_cr(q0));
}

/// No field of a text holds a character that the text does not hold.
pub proof fn lemma_split_fields_pieces(s: Seq<char>, ch: char)
    requires
        !s.contains(ch),
    ensures
        forall|i: int|
            0 <= i < split_fields(s).len() ==> !(#[trigger] split_fields(s)[i]).contains(ch),
    decreases s.len(),
{
    if s.len() > 0 {
        let t = s.drop_last();
        assert(!t.contains(ch)) by {
            if t.contains(ch) {
                let j = choose|j: int| 0 <= j < t.len() && t[j] == ch;
                assert(s[j] == ch);
            }
        }
        assert(s.last() != ch) by {
            assert(s[s.len() - 1] == s.last());
        }
        lemma_split_fields_pieces(t, ch);
        lemma_split_fields_nonempty(t);
        let p = split_fields(t);
        let cur = p.last();
        assert(!cur.contains(ch)) by {
            assert(p[p.len() - 1] == cur);
        }
        let n = split_fields(s);
        assert forall|i: int| 0 <= i < n.len() implies !(#[trigger] n[i]).contains(ch) by {
            if i < p.len() - 1 {
                assert(n[i] == p[i]);
            } else if i == p.len() - 1 {
                if n[i].contains(ch) {
                    let j = choose|j: int| 0 <= j < n[i].len() && n[i][j] == ch;
                    if j < cur.len() {
                        assert(cur[j] == ch);
                    }
                }
            }
        }
    }
}

/// Splitting a concatenation: the last piece of the first part is glued to
/// the front of the first piece of the second.
pub proof fn lemma_split_on_concat(a: Seq<char>, b: Seq<char>, sep: char)
    ensures
        split_on(a + b, sep) == split_on(a, sep).drop_last() + split_on(b, sep).update(
            0,
            split_on(a, sep).last() + split_on(b, sep)[0],
        ),
    decreases b.len(),
{
    lemma_split_on_nonempty(a, sep);
    lemma_split_on_nonempty(b, sep);
    let pa = split_on(a, sep);
    if b.len() == 0 {
        assert(a + b =~= a);
        assert(pa.last() + Seq::<char>::empty() =~= pa.last());
        assert(pa.drop_last() + seq![pa.last()] =~= pa);
        assert(split_on(b, sep).update(0, pa.last() + split_on(b, sep)[0]) =~= seq![pa.last()]);
    } else {
        let b0 = b.drop_last();
        lemma_split_on_concat(a, b0, sep);
        lemma_split_on_nonempty(b0, sep);
        assert((a + b).drop_last() =~= a + b0);
        assert((a + b).last() == b.last());
        let q = split_on(b0, sep);
        let pq = pa.drop_last() + q.update(0, pa.last() + q[0]);
        if b.last() == sep {
            assert(pq.push(Seq::<char>::empty()) =~= pa.drop_last() + q.push(
                Seq::<char>::empty(),
            ).update(0, pa.last() + q.push(Seq::<char>::empty())[0]));
        } else {
            let q2 = q.update(q.len() - 1, q.last().push(b.last()));
            if q.len() == 1 {
                assert((pa.last() + q[0]).push(b.last()) =~= pa.last() + q[0].push(b.last()));
            }
            assert(pq.update(pq.len() - 1, pq.last().push(b.last())) =~= pa.drop_last()
                + q2.update(0, pa.last() + q2[0]));
        }
    }
}

/// The last piece of a split is empty exactly when the text is empty or
/// ends with the separator.
pub proof fn lemma_split_on_last(a: Seq<char>, sep: char)
    ensures
        split_on(a, sep).len() >= 1,
        (split_on(a, sep).last().len() == 0) == (a.len() == 0 || a.last() == sep),
{
    lemma_split_on_nonempty(a, sep);
    if a.len() > 0 {
        lemma_split_on_nonempty(a.drop_last(), sep);
    }
}

/// A text whose fields are a single one is that field; a nonempty text has
/// a nonempty last field or more than one field.
proof fn lemma_split_fields_last(s: Seq<char>)
    ensures
        split_fields(s).len() >= 1,
        s.len() > 0 && split_fields(s).len() == 1 ==> split_fields(s)[0].len() > 0,
{
    lemma_split_fields_nonempty(s);
    if s.len() > 0 {
        lemma_split_fields_nonempty(s.drop_last());
    }
}

/// Splitting a concatenation into fields, where the second part does not
/// start with a space: the last field of the first part is glued to the
/// front of the first field of the second.
pub proof fn lemma_split_fields_concat(a: Seq<char>, b: Seq<char>)
    requires
        b.len() > 0 ==> b[0] != ' ',
    ensures
        split_fields(a + b) == split_fields(a).drop_last() + split_fields(b).update(
            0,
            split_fields(a).last() + split_fields(b)[0],
        ),
    decreases b.len(),
{
    lemma_split_fields_nonempty(a);
    lemma_split_fields_nonempty(b);
    let fa = split_fields(a);
    if b.len() == 0 {
        assert(a + b =~= a);
        assert(fa.last() + Seq::<char>::empty() =~= fa.last());
        assert(fa.drop_last() + seq![fa.last()] =~= fa);
        assert(split_fields(b).update(0, fa.last() + split_fields(b)[0]) =~= seq![fa.last()]);
    } else {
        let b0 = b.drop_last();
        if b0.len() > 0 {
            assert(b0[0] == b[0]);
        }
        lemma_split_fields_concat(a, b0);
        lemma_split_fields_last(b0);
        assert((a + b).drop_last() =~= a + b0);
        assert((a + b).last() == b.last());
        let q = split_fields(b0);
        let pq = fa.drop_last() + q.update(0, fa.last() + q[0]);
        let ch = b.last();
        let curc = pq.last();
        let curb = q.last();
        if q.len() == 1 {
            assert(curc == fa.last() + q[0]);
            if b0.len() == 0 {
                assert(b[0] == ch);
            } else {
                assert(curc.last() == curb.last());
                assert(curc.len() > 0);
            }
        } else {
            assert(curc == curb);
        }
        if ch == ' ' && curb.len() > 0 && curb.last() == ',' {
            let q2 = q.update(q.len() - 1, curb.drop_last()).push(Seq::<char>::empty());
            if q.len() == 1 {
                assert(curc.drop_last() =~= fa.last() + q[0].drop_last());
            }
            assert(pq.update(pq.len() - 1, curc.drop_last()).push(Seq::<char>::empty())
                =~= fa.drop_last() + q2.update(0, fa.last() + q2[0]));
        } else {
            let q2 = q.update(q.len() - 1, curb.push(ch));
            if q.len() == 1 {
                assert(curc.push(ch) =~= fa.last() + q[0].push(ch));
            }
            assert(pq.update(pq.len() - 1, curc.push(ch)) =~= fa.drop_last() + q2.update(
                0,
                fa.last() + q2[0],
            ));
        }
    }
}

/// A new string holding the given characters.
pub fn string_from(v: &Vec<char>) -> (s: String)
    ensures
        s@ == v@,
{
    let mut s = String::new();
    let mut i: usize = 0;
    while i < v.len()
        invariant
            i <= v.len(),
            s@ == v@.take(i as int),
        decreases v.len() - i,
    {
        push_char(&mut s, v[i]);
        i += 1;
        assert(s@ =~= v@.take(i as int));
    }
    assert(v@.take(v.len() as int) =~= v@);
    s
}

/// Appends the given characters to a string.
pub fn append_chars(s: &mut String, v: &Vec<char>)
    ensures
        final(s)@ == old(s)@ + v@,
{
    let ghost start = s@;
    let mut i: usize = 0;
    while i < v.len()
        invariant
            i <= v.len(),
            s@ == start + v@.take(i as int),
        decreases v.len() - i,
    {
        push_char(s, v[i]);
        i += 1;
        assert(s@ =~= start + v@.take(i as int));
    }
    assert(v@.take(v.len() as int) =~= v@);
}

/// Appends one character to a string (std's `String::push`).
/// Trusted: the string afterwards is the old one followed by `c`.
#[verifier::external_body]
pub(crate) fn push_char(s: &mut String, c: char)
    ensures
        final(s)@ == old(s)@.push(c),
{
    s.push(c);
}

/// The characters of a string slice, in order.
pub fn chars_of(s: &str) -> (v: Vec<char>)
    ensures
        v@ == s@,
{
    let mut v: Vec<char> = Vec::new();
    for c in it: s.chars()
        invariant
            it.seq() == s@,
            v@ == it.seq().take(it.index()),
    {
        v.push(c);
    }
    v
}

/// Splits characters at `", "` (`str::split(", ")`).
pub fn split_fields_exec(v: &Vec<char>) -> (r: Vec<Vec<char>>)
    ensures
        views(r@) == split_fields(v@),
{
    let mut done: Vec<Vec<char>> = Vec::new();
    let mut cur: Vec<char> = Vec::new();
    let mut i: usize = 0;
    assert(v@.take(0) =~= Seq::<char>::empty());
    assert(views(done@).push(cur@) =~= seq![Seq::<char>::empty()]);
    while i < v.len()
        invariant
            i <= v.len(),
            views(done@).push(cur@) == split_fields(v@.take(i as int)),
        decreases v.len() - i,
    {
        let c = v[i];
        let ghost before = views(done@).push(cur@);
        assert(v@.take(i + 1).drop_last() =~= v@.take(i as int));
        assert(v@.take(i + 1).last() == c);
        assert(before.last() == cur@);
        if c == ' ' && cur.len() > 0 && cur[cur.len() - 1] == ',' {
            cur.pop();
            done.push(cur);
            cur = Vec::new();
            assert(views(done@).push(cur@) =~= before.update(
                before.len() - 1,
                before.last().drop_last(),
            ).push(Seq::<char>::empty()));
        } else {
            cur.push(c);
            assert(views(done@).push(cur@) =~= before.update(
                before.len() - 1,
                before.last().push(c),
            ));
        }
        i += 1;
    }
    assert(v@.take(v.len() as int) =~= v@);
    done.push(cur);
    done
}

/// Splits characters into lines (`str::lines`).
pub fn split_lines(v: &Vec<char>) -> (r: Vec<Vec<char>>)
    ensures
        views(r@) == lines(v@),
{
    let mut done: Vec<Vec<char>> = Vec::new();
    let mut cur: Vec<char> = Vec::new();
    let mut i: usize = 0;
    assert(v@.take(0) =~= Seq::<char>::empty());
    while i < v.len()
        invariant
            i <= v.len(),
            split_on(v@.take(i as int), '\n').last() == cur@,
            views(done@) == split_on(v@.take(i as int), '\n').drop_last().map_values(
                |l: Seq<char>| strip_cr(l),
            ),
        decreases v.len() - i,
    {
        let c = v[i];
        let ghost p = split_on(v@.take(i as int), '\n');
        proof {
            lemma_split_on_nonempty(v@.take(i as int), '\n');
        }
        assert(v@.take(i + 1).drop_last() =~= v@.take(i as int));
        assert(v@.take(i + 1).last() == c);
        if c == '\n' {
            if cur.len() > 0 && cur[cur.len() - 1] == '\r' {
                cur.pop();
            }
            assert(cur@ == strip_cr(p.last()));
            let ghost old_done = views(done@);
            done.push(cur);
            assert(views(done@) =~= old_done.push(strip_cr(p.last())));
            cur = Vec::new();
            assert(p.push(Seq::<char>::empty()).drop_last() =~= p);
            assert(p =~= p.drop_last().push(p.last()));
            assert(views(done@) =~= p.map_values(|l: Seq<char>| strip_cr(l)));
        } else {
            cur.push(c);
            let ghost q = p.update(p.len() - 1, p.last().push(c));
            assert(q.drop_last() =~= p.drop_last());
        }
        i += 1;
    }
    assert(v@.take(v.len() as int) =~= v@);
    if cur.len() > 0 {
        done.push(cur);
    }
    done
}

} // verus!
