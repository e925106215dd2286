//! How a document's lines, their terminators and its records relate, and
//! how they survive rewriting every line.
use vstd::prelude::*;
use super::split::{find_from, lemma_find_from};
use super::analysis::{lines_from, doc_body, strip_cr, doc_lines};
use super::rewrite::{segments_from, line_segments};

verus! {

broadcast use vstd::seq::group_seq_axioms;

/// Lines followed by their terminators, concatenated.
pub open spec fn concat_pairs(ps: Seq<(Seq<char>, Seq<char>)>) -> Seq<char>
    decreases ps.len(),
{
    if ps.len() == 0 {
        Seq::empty()
    } else {
        ps[0].0 + ps[0].1 + concat_pairs(ps.drop_first())
    }
}

/// `"\n"` or `"\r\n"`.
pub open spec fn is_line_ending(e: Seq<char>) -> bool {
    e == seq!['\n'] || e == seq!['\r', '\n']
}

/// What may end the last line: nothing or a lone `"\r"`.
pub open spec fn is_final_ending(e: Seq<char>) -> bool {
    e == Seq::<char>::empty() || e == seq!['\r']
}

/// Lines and terminators that split back into themselves: lines hold no
/// `'\n'`, only the last one may lack a newline, and a line does not end
/// with `'\r'` where that `'\r'` would be read as part of its terminator.
pub open spec fn well_ended(ps: Seq<(Seq<char>, Seq<char>)>) -> bool {
    &&& forall|l: int| 0 <= l < ps.len() ==> !(#[trigger] ps[l]).0.contains('\n')
    &&& forall|l: int| 0 <= l < ps.len() - 1 ==> is_line_ending((#[trigger] ps[l]).1)
    &&& ps.len() > 0 ==> (is_line_ending(ps.last().1) || is_final_ending(ps.last().1))
    &&& forall|l: int|
        0 <= l < ps.len() && ((#[trigger] ps[l]).1 == seq!['\n'] || ps[l].1
            == Seq::<char>::empty()) && ps[l].0.len() > 0 ==> ps[l].0.last() != '\r'
}

/// `ps` without a final empty line that has no terminator.
pub open spec fn drop_empty_tail(ps: Seq<(Seq<char>, Seq<char>)>) -> Seq<(Seq<char>, Seq<char>)> {
    if ps.len() > 0 && ps.last().0.len() == 0 && ps.last().1.len() == 0 {
        ps.drop_last()
    } else {
        ps
    }
}

proof fn lemma_concat_pairs_cons(p: (Seq<char>, Seq<char>), ps: Seq<(Seq<char>, Seq<char>)>)
    ensures
        concat_pairs(seq![p] + ps) == p.0 + p.1 + concat_pairs(ps),
{
    assert((seq![p] + ps).drop_first() =~= ps);
}

/// Splitting the concatenation of well-ended lines gives them back.
pub proof fn lemma_segments_of_concat(ps: Seq<(Seq<char>, Seq<char>)>, c: Seq<char>, a: int)
    requires
        well_ended(ps),
        0 <= a <= c.len(),
        c.subrange(a, c.len() as int) == concat_pairs(ps),
    ensures
        segments_from(c, a) == drop_empty_tail(ps),
    decreases ps.len(),
{
    let n = c.len() as int;
    if ps.len() == 0 {
        assert(c.subrange(a, n).len() == 0);
    } else {
        let r = ps[0].0;
        let e = ps[0].1;
        let rest = ps.drop_first();
        let tail = concat_pairs(rest);
        assert(concat_pairs(ps) == r + e + tail);
        assert(!r.contains('\n'));
        let jn = c.subrange(a, n);
        assert forall|x: int| 0 <= x < r.len() implies c[a + x] == r[x] && c[a + x] != '\n' by {
            assert(c[a + x] == jn[x]);
            assert((r + e + tail)[x] == r[x]);
            if r[x] == '\n' {
                assert(r.contains('\n'));
            }
        }
        assert forall|x: int| 0 <= x < e.len() implies c[a + r.len() + x] == e[x] by {
            assert(c[a + r.len() + x] == jn[r.len() + x]);
            assert((r + e + tail)[r.len() + x] == e[x]);
        }
        if ps.len() == 1 && is_final_ending(e) {
            // The last line, without a newline.
            assert(tail.len() == 0);
            assert(jn =~= r + e);
            assert forall|x: int| a <= x < n implies c[x] != '\n' by {
                if x < a + r.len() {
                    assert(c[a + (x - a)] == r[x - a] && c[a + (x - a)] != '\n');
                } else {
                    assert(c[x] == e[x - a - r.len()]);
                }
            }
            lemma_find_skip_all(c, '\n', a, n);
            if r.len() == 0 && e.len() == 0 {
                assert(a == n);
            } else {
                let seg = c.subrange(a, n);
                if e == seq!['\r'] {
                    assert(seg.last() == '\r');
                    assert(seg.drop_last() =~= r);
                } else {
                    assert(seg =~= r);
                    assert(r.last() != '\r') by {
                        assert(ps[0].1 == Seq::<char>::empty());
                    }
                }
                assert(segments_from(c, a) =~= drop_empty_tail(ps));
            }
        } else {
            assert(is_line_ending(e)) by {
                if ps.len() > 1 {
                    assert(is_line_ending(ps[0].1));
                }
            }
            let k = a + r.len() + e.len() - 1;
            assert(c[k] == '\n') by {
                assert(c[k] == e[e.len() - 1]);
            }
            assert forall|x: int| a <= x < k implies c[x] != '\n' by {
                if x < a + r.len() {
                    assert(c[a + (x - a)] == r[x - a] && c[a + (x - a)] != '\n');
                } else {
                    assert(c[x] == e[x - a - r.len()]);
                }
            }
            lemma_find_skip_all(c, '\n', a, k);
            assert(find_from(c, a, '\n') == k);
            let next = k + 1;
            assert(c.subrange(next, n) =~= tail) by {
                assert forall|x: int| 0 <= x < tail.len() implies c.subrange(next, n)[x] == tail[x] by {
                    assert(c[next + x] == jn[r.len() + e.len() + x]);
                    assert((r + e + tail)[r.len() + e.len() + x] == tail[x]);
                }
            }
            assert(well_ended(rest)) by {
                assert forall|l: int| 0 <= l < rest.len() implies !(#[trigger] rest[l]).0.contains('\n') by {
                    assert(rest[l] == ps[l + 1]);
                }
                assert forall|l: int| 0 <= l < rest.len() - 1 implies is_line_ending((#[trigger] rest[l]).1) by {
                    assert(rest[l] == ps[l + 1]);
                }
                assert forall|l: int|
                    0 <= l < rest.len() && ((#[trigger] rest[l]).1 == seq!['\n'] || rest[l].1
                        == Seq::<char>::empty()) && rest[l].0.len() > 0 implies rest[l].0.last() != '\r' by {
                    assert(rest[l] == ps[l + 1]);
                }
            }
            lemma_segments_of_concat(rest, c, next);
            if e == seq!['\r', '\n'] {
                assert(k > a && c[k - 1] == '\r');
                assert(c.subrange(a, k - 1) =~= r);
            } else {
                assert(e == seq!['\n']);
                if k > a {
                    assert(r.len() > 0);
                    assert(c[k - 1] == r.last());
                    assert(r.last() != '\r');
                }
                assert(c.subrange(a, k) =~= r);
            }
            assert(segments_from(c, a) == seq![(r, e)] + segments_from(c, next));
            if rest.len() > 0 {
                assert(drop_empty_tail(ps) =~= seq![(r, e)] + drop_empty_tail(rest)) by {
                    assert(ps.last() == rest.last());
                    if ps.last().0.len() == 0 && ps.last().1.len() == 0 {
                        assert(ps.drop_last() =~= seq![(r, e)] + rest.drop_last());
                    }
                }
            } else {
                assert(drop_empty_tail(ps) =~= seq![(r, e)]);
                assert(drop_empty_tail(rest) =~= rest);
            }
            assert(segments_from(c, a) =~= drop_empty_tail(ps));
        }
    }
}

/// `find_from` finds nothing where `c` does not occur.
pub proof fn lemma_find_skip_all(s: Seq<char>, c: char, i: int, j: int)
    requires
        0 <= i <= j <= s.len(),
        forall|x: int| i <= x < j ==> s[x] != c,
    ensures
        find_from(s, i, c) == find_from(s, j, c),
    decreases j - i,
{
    if i < j {
        lemma_find_skip_all(s, c, i + 1, j);
    }
}

/// The lines of a text and their terminators concatenate back to it, and
/// are well ended, never with an empty unterminated last line.
pub proof fn lemma_segments_rebuild(t: Seq<char>, a: int)
    requires
        0 <= a <= t.len(),
    ensures
        concat_pairs(segments_from(t, a)) == t.subrange(a, t.len() as int),
        well_ended(segments_from(t, a)),
        drop_empty_tail(segments_from(t, a)) == segments_from(t, a),
    decreases t.len() - a,
{
    let n = t.len() as int;
    let ps = segments_from(t, a);
    if a >= n {
        assert(t.subrange(a, n) =~= Seq::<char>::empty());
    } else {
        lemma_find_from(t, a, '\n');
        let k = find_from(t, a, '\n');
        if k >= n {
            let seg = t.subrange(a, n);
            assert forall|x: int| 0 <= x < seg.len() implies seg[x] != '\n' by {
                assert(seg[x] == t[a + x]);
            }
            lemma_concat_pairs_cons(ps[0], Seq::empty());
            assert(seq![ps[0]] + Seq::<(Seq<char>, Seq<char>)>::empty() =~= ps);
            if seg.last() == '\r' {
                assert(seg.drop_last() + seq!['\r'] =~= seg);
                assert(concat_pairs(ps) =~= seg);
                assert(!seg.drop_last().contains('\n'));
            } else {
                assert(concat_pairs(ps) =~= seg);
                assert(!seg.contains('\n'));
            }
        } else {
            lemma_segments_rebuild(t, k + 1);
            let rest = segments_from(t, k + 1);
            let first = ps[0];
            assert(ps == seq![first] + rest);
            lemma_concat_pairs_cons(first, rest);
            assert forall|x: int| a <= x < k implies t[x] != '\n' by {}
            if k > a && t[k - 1] == '\r' {
                assert(first == (t.subrange(a, k - 1), seq!['\r', '\n']));
                assert(t.subrange(a, k - 1) + seq!['\r', '\n'] + t.subrange(k + 1, n) =~= t.subrange(a, n));
                assert(!t.subrange(a, k - 1).contains('\n'));
            } else {
                assert(first == (t.subrange(a, k), seq!['\n']));
                assert(t.subrange(a, k) + seq!['\n'] + t.subrange(k + 1, n) =~= t.subrange(a, n));
                assert(!t.subrange(a, k).contains('\n'));
            }
            assert(well_ended(ps)) by {
                assert forall|l: int| 0 <= l < ps.len() implies !(#[trigger] ps[l]).0.contains('\n') by {
                    if l > 0 {
                        assert(ps[l] == rest[l - 1]);
                    }
                }
                assert forall|l: int| 0 <= l < ps.len() - 1 implies is_line_ending((#[trigger] ps[l]).1) by {
                    if l > 0 {
                        assert(ps[l] == rest[l - 1]);
                    }
                }
                if rest.len() > 0 {
                    assert(ps.last() == rest.last());
                }
                assert forall|l: int|
                    0 <= l < ps.len() && ((#[trigger] ps[l]).1 == seq!['\n'] || ps[l].1
                        == Seq::<char>::empty()) && ps[l].0.len() > 0 implies ps[l].0.last() != '\r' by {
                    if l > 0 {
                        assert(ps[l] == rest[l - 1]);
                    } else {
                        if first.1 == seq!['\n'] && first.0.len() > 0 {
                            assert(first.0.last() == t[k - 1]);
                        }
                        if first.1 == Seq::<char>::empty() {
                            assert(first.1.len() == 2 || first.1.len() == 1);
                        }
                    }
                }
            }
            if rest.len() > 0 {
                assert(ps.last() == rest.last());
            } else {
                assert(ps.last().1.len() > 0);
            }
        }
    }
}

/// `find_from` in a prefix of a text.
proof fn lemma_find_prefix(t: Seq<char>, m: int, a: int, c: char)
    requires
        0 <= a <= m <= t.len(),
    ensures
        find_from(t.take(m), a, c) == if find_from(t, a, c) < m {
            find_from(t, a, c)
        } else {
            m
        },
    decreases m - a,
{
    lemma_find_from(t, a, c);
    if a < m {
        assert(t.take(m)[a] == t[a]);
        lemma_find_prefix(t, m, a + 1, c);
    }
}

proof fn lemma_cons_maps(
    segs: Seq<(Seq<char>, Seq<char>)>,
    ls: Seq<Seq<char>>,
    rs: Seq<(Seq<char>, Seq<char>)>,
    rl: Seq<Seq<char>>,
)
    requires
        segs.len() > 0,
        ls.len() > 0,
        segs == seq![segs[0]] + rs,
        ls == seq![ls[0]] + rl,
        segs[0].0 == strip_cr(ls[0]),
        rs.map_values(|p: (Seq<char>, Seq<char>)| p.0) == rl.map_values(|l: Seq<char>| strip_cr(l)),
    ensures
        segs.map_values(|p: (Seq<char>, Seq<char>)| p.0) == ls.map_values(|l: Seq<char>| strip_cr(l)),
{
    let sm = segs.map_values(|p: (Seq<char>, Seq<char>)| p.0);
    let lm = ls.map_values(|l: Seq<char>| strip_cr(l));
    let rsm = rs.map_values(|p: (Seq<char>, Seq<char>)| p.0);
    let rlm = rl.map_values(|l: Seq<char>| strip_cr(l));
    assert(rs.len() == rsm.len() && rl.len() == rlm.len());
    assert forall|i: int| 0 <= i < sm.len() implies #[trigger] sm[i] == lm[i] by {
        if i > 0 {
            assert(segs[i] == rs[i - 1]);
            assert(ls[i] == rl[i - 1]);
            assert(rsm[i - 1] == rlm[i - 1]);
        }
    }
    assert(sm =~= lm);
}

/// A non-empty text's records are its lines without terminators.
pub proof fn lemma_doc_lines_segments(t: Seq<char>)
    requires
        t.len() > 0,
    ensures
        doc_lines(t) == line_segments(t).map_values(|p: (Seq<char>, Seq<char>)| p.0),
{
    lemma_doc_lines_from(t, 0);
    assert(doc_lines(t) =~= lines_from(doc_body(t), 0).map_values(|l: Seq<char>| strip_cr(l)));
}

proof fn lemma_doc_lines_from(t: Seq<char>, a: int)
    requires
        0 <= a < t.len(),
        a <= doc_body(t).len(),
    ensures
        segments_from(t, a).map_values(|p: (Seq<char>, Seq<char>)| p.0) == lines_from(
            doc_body(t),
            a,
        ).map_values(|l: Seq<char>| strip_cr(l)),
    decreases t.len() - a,
{
    let n = t.len() as int;
    let b = doc_body(t);
    let ends_nl = t.last() == '\n';
    assert(b == t.take(b.len() as int));
    lemma_find_from(t, a, '\n');
    lemma_find_prefix(t, b.len() as int, a, '\n');
    let k = find_from(t, a, '\n');
    let segs = segments_from(t, a);
    let ls = lines_from(b, a);
    if k >= n {
        // No newline left: the text does not end with one.
        assert(!ends_nl) by {
            if ends_nl {
                lemma_find_skip_all(t, '\n', a, n - 1);
                lemma_find_from(t, n - 1, '\n');
            }
        }
        assert(b == t);
        let seg = t.subrange(a, n);
        assert(ls == seq![seg]);
        if seg.last() == '\r' {
            assert(segs == seq![(seg.drop_last(), seq!['\r'])]);
        } else {
            assert(segs == seq![(seg, Seq::<char>::empty())]);
        }
        assert(segs.map_values(|p: (Seq<char>, Seq<char>)| p.0) =~= ls.map_values(|l: Seq<char>| strip_cr(l)));
    } else {
        let line = if k > a && t[k - 1] == '\r' {
            t.subrange(a, k - 1)
        } else {
            t.subrange(a, k)
        };
        assert(line == strip_cr(t.subrange(a, k))) by {
            if k > a && t[k - 1] == '\r' {
                assert(t.subrange(a, k).drop_last() =~= t.subrange(a, k - 1));
            }
        }
        assert(segs[0].0 == line);
        if k == n - 1 {
            assert(ends_nl);
            assert(b.len() == n - 1);
            assert(find_from(b, a, '\n') == b.len());
            assert(ls == seq![b.subrange(a, b.len() as int)]);
            assert(b.subrange(a, b.len() as int) =~= t.subrange(a, k));
            assert(segments_from(t, k + 1) == Seq::<(Seq<char>, Seq<char>)>::empty());
            assert(segs =~= seq![segs[0]]);
            assert(segs.map_values(|p: (Seq<char>, Seq<char>)| p.0) =~= ls.map_values(|l: Seq<char>| strip_cr(l)));
        } else {
            assert(k < b.len()) by {
                if ends_nl {
                    assert(b.len() == n - 1);
                }
            }
            assert(find_from(b, a, '\n') == k);
            assert(b.subrange(a, k) =~= t.subrange(a, k));
            assert(ls == seq![b.subrange(a, k)] + lines_from(b, k + 1));
            lemma_doc_lines_from(t, k + 1);
            let rs = segments_from(t, k + 1);
            let rl = lines_from(b, k + 1);
            assert(segs == seq![segs[0]] + rs);
            assert(rs.map_values(|p: (Seq<char>, Seq<char>)| p.0) == rl.map_values(|l: Seq<char>| strip_cr(l)));
            lemma_cons_maps(segs, ls, rs, rl);
            assert(segs.map_values(|p: (Seq<char>, Seq<char>)| p.0) =~= ls.map_values(|l: Seq<char>| strip_cr(l)));
        }
    }
}

} // verus!
