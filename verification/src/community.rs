use vstd::prelude::*;
use vstd::hash_set::HashSetWithView;

verus! {

/// The rows held by a vector of vectors: the communities of a list of
/// communities, or the rows of a matrix.
pub open spec fn rows_view<T>(m: Seq<Vec<T>>) -> Seq<Seq<T>> {
    Seq::new(m.len(), |i: int| m[i]@)
}


/// Places `c` after every community of `s` that is at least as large as it,
/// and before the first one that is smaller.
pub open spec fn insert_by_size(s: Seq<Seq<usize>>, c: Seq<usize>) -> Seq<Seq<usize>>
    decreases s.len(),
{
    if s.len() == 0 {
        seq![c]
    } else if s[0].len() < c.len() {
        seq![c] + s
    } else {
        seq![s[0]] + insert_by_size(s.drop_first(), c)
    }
}

/// Stable sort of communities by size, largest first: communities of equal
/// size keep their relative order.
pub open spec fn sort_by_size(s: Seq<Seq<usize>>) -> Seq<Seq<usize>>
    decreases s.len(),
{
    if s.len() == 0 {
        seq![]
    } else {
        insert_by_size(sort_by_size(s.drop_last()), s.last())
    }
}

/// Communities ordered by size, largest first.
pub open spec fn sorted_by_size(s: Seq<Seq<usize>>) -> bool {
    forall|i: int, j: int| 0 <= i < j < s.len() ==> #[trigger] s[i].len() >= #[trigger] s[j].len()
}

/// `p` maps each position of a sequence of length `n` to a distinct position
/// of another sequence of length `n`.
pub open spec fn is_permutation_map(p: Seq<int>, n: nat) -> bool {
    &&& p.len() == n
    &&& forall|k: int| 0 <= k < n ==> 0 <= #[trigger] p[k] < n
    &&& forall|k1: int, k2: int| 0 <= k1 < n && 0 <= k2 < n && k1 != k2 ==> #[trigger] p[k1] != #[trigger] p[k2]
    &&& forall|j: int| 0 <= j < n ==> #[trigger] hits(p, j)
}

/// Some position of `p` holds `j`.
pub open spec fn hits(p: Seq<int>, j: int) -> bool {
    exists|k: int| 0 <= k < p.len() && #[trigger] p[k] == j
}

proof fn lemma_insert_position(s: Seq<Seq<usize>>, c: Seq<usize>) -> (pos: int)
    ensures
        0 <= pos <= s.len(),
        insert_by_size(s, c) == s.insert(pos, c),
        forall|j: int| 0 <= j < pos ==> #[trigger] s[j].len() >= c.len(),
        pos < s.len() ==> s[pos].len() < c.len(),
    decreases s.len(),
{
    if s.len() == 0 {
        assert(insert_by_size(s, c) =~= s.insert(0, c));
        0
    } else if s[0].len() < c.len() {
        assert(insert_by_size(s, c) =~= s.insert(0, c));
        0
    } else {
        let rest = s.drop_first();
        let p: int = lemma_insert_position(rest, c);
        assert(insert_by_size(s, c) =~= s.insert(p + 1, c));
        assert forall|j: int| 0 <= j < p + 1 implies #[trigger] s[j].len() >= c.len() by {
            if j > 0 {
                assert(s[j] == rest[j - 1]);
            }
        }
        p + 1
    }
}

/// Sorting by size yields communities ordered largest first.
pub proof fn lemma_sort_by_size_sorted(s: Seq<Seq<usize>>)
    ensures
        sorted_by_size(sort_by_size(s)),
        sort_by_size(s).len() == s.len(),
    decreases s.len(),
{
    if s.len() > 0 {
        let t = sort_by_size(s.drop_last());
        lemma_sort_by_size_sorted(s.drop_last());
        let c = s.last();
        let pos: int = lemma_insert_position(t, c);
        let r = t.insert(pos, c);
        assert forall|i: int, j: int| 0 <= i < j < r.len() implies #[trigger] r[i].len() >= #[trigger] r[j].len() by {
            if j < pos {
                assert(r[i] == t[i] && r[j] == t[j]);
            } else if j == pos {
                assert(r[i] == t[i]);
            } else if i < pos {
                assert(r[i] == t[i] && r[j] == t[j - 1]);
                assert(t[i].len() >= c.len());
                assert(t[pos].len() < c.len());
                if j - 1 > pos {
                    assert(t[pos].len() >= t[j - 1].len());
                }
            } else if i == pos {
                assert(r[j] == t[j - 1]);
                assert(t[pos].len() < c.len());
                if j - 1 > pos {
                    assert(t[pos].len() >= t[j - 1].len());
                }
            } else {
                assert(r[i] == t[i - 1] && r[j] == t[j - 1]);
            }
        }
    }
}

/// Sorting by size only reorders: every position of the result holds the
/// community found at a distinct position of the input.
pub proof fn lemma_sort_by_size_permutes(s: Seq<Seq<usize>>) -> (p: Seq<int>)
    ensures
        sort_by_size(s).len() == s.len(),
        is_permutation_map(p, s.len()),
        forall|k: int| 0 <= k < s.len() ==> #[trigger] sort_by_size(s)[k] == s[p[k]],
    decreases s.len(),
{
    if s.len() == 0 {
        seq![]
    } else {
        let n: int = s.len() as int;
        let q = lemma_sort_by_size_permutes(s.drop_last());
        let t = sort_by_size(s.drop_last());
        let c = s.last();
        let pos: int = lemma_insert_position(t, c);
        let p = q.insert(pos, n - 1);
        assert forall|k: int| 0 <= k < n implies 0 <= #[trigger] p[k] < n by {
            if k < pos {
                assert(p[k] == q[k]);
            } else if k > pos {
                assert(p[k] == q[k - 1]);
            }
        }
        assert forall|k1: int, k2: int| 0 <= k1 < n && 0 <= k2 < n && k1 != k2 implies #[trigger] p[k1] != #[trigger] p[k2] by {
            if k1 != pos && k2 != pos {
                let a: int = if k1 < pos { k1 } else { k1 - 1 };
                let b: int = if k2 < pos { k2 } else { k2 - 1 };
                assert(p[k1] == q[a] && p[k2] == q[b]);
            } else if k1 == pos {
                let b: int = if k2 < pos { k2 } else { k2 - 1 };
                assert(p[k2] == q[b]);
            } else {
                let a: int = if k1 < pos { k1 } else { k1 - 1 };
                assert(p[k1] == q[a]);
            }
        }
        assert forall|j: int| 0 <= j < n implies #[trigger] hits(p, j) by {
            if j == n - 1 {
                assert(p[pos] == j);
            } else {
                assert(hits(q, j));
                let k0 = choose|k: int| 0 <= k < n - 1 && #[trigger] q[k] == j;
                if k0 < pos {
                    assert(p[k0] == j);
                } else {
                    assert(p[k0 + 1] == j);
                }
            }
        }
        assert forall|k: int| 0 <= k < n implies #[trigger] sort_by_size(s)[k] == s[p[k]] by {
            if k < pos {
                assert(sort_by_size(s)[k] == t[k]);
                assert(s[q[k]] == s.drop_last()[q[k]]);
            } else if k > pos {
                assert(sort_by_size(s)[k] == t[k - 1]);
                assert(p[k] == q[k - 1]);
                assert(s[q[k - 1]] == s.drop_last()[q[k - 1]]);
            }
        }
        p
    }
}

fn insert_position(sorted: &Vec<Vec<usize>>, c: &Vec<usize>) -> (pos: usize)
    ensures
        pos <= sorted.len(),
        insert_by_size(rows_view(sorted@), c@) == rows_view(sorted@).insert(pos as int, c@),
{
    let ghost s = rows_view(sorted@);
    let mut pos: usize = 0;
    while pos < sorted.len() && sorted[pos].len() >= c.len()
        invariant
            pos <= sorted.len(),
            s == rows_view(sorted@),
            forall|j: int| 0 <= j < pos ==> #[trigger] s[j].len() >= c@.len(),
        decreases sorted.len() - pos,
    {
        pos = pos + 1;
    }
    proof {
        let p: int = lemma_insert_position(s, c@);
        if p < pos {
            assert(s[p].len() >= c@.len());
        } else if pos < p {
            assert(s[pos as int].len() >= c@.len());
        }
    }
    pos
}

/// Sorts communities by size, largest first, keeping communities of equal
/// size in their original order.
pub fn sort_communities(communities: Vec<Vec<usize>>) -> (res: Vec<Vec<usize>>)
    ensures
        rows_view(res@) == sort_by_size(rows_view(communities@)),
{
    let ghost input = rows_view(communities@);
    let n: usize = communities.len();
    let mut rest = communities;
    let mut out: Vec<Vec<usize>> = Vec::new();
    let mut i: usize = 0;
    while rest.len() > 0
        invariant
            input.len() == n,
            input.len() == i + rest.len(),
            rows_view(rest@) == input.skip(i as int),
            rows_view(out@) == sort_by_size(input.take(i as int)),
        decreases rest.len(),
    {
        let ghost before = out@;
        let ghost old_rest = rest@;
        let c = rest.remove(0);
        proof {
            assert(rows_view(old_rest)[0] == input.skip(i as int)[0]);
            assert(c@ == input[i as int]);
            assert forall|k: int| 0 <= k < rest@.len() implies #[trigger] rows_view(rest@)[k] == input.skip(i + 1)[k] by {
                assert(rest@[k] == old_rest[k + 1]);
                assert(rows_view(old_rest)[k + 1] == input.skip(i as int)[k + 1]);
            }
            assert(rows_view(rest@) =~= input.skip(i + 1));
        }
        let pos: usize = insert_position(&out, &c);
        out.insert(pos, c);
        proof {
            assert(rows_view(out@) =~= rows_view(before).insert(pos as int, c@));
            assert(input.take(i + 1).drop_last() =~= input.take(i as int));
            assert(input.take(i + 1).last() == input[i as int]);
        }
        i = i + 1;
    }
    assert(input.take(i as int) =~= input);
    out
}

/// Members of community `c` that no earlier community has claimed.
pub open spec fn unclaimed(c: Seq<usize>, taken: Set<usize>) -> Seq<usize> {
    c.filter(|x: usize| !taken.contains(x))
}

/// Walks the communities in order; each one keeps only its unclaimed
/// members, and is kept (claiming those members) when at least
/// `min_size` of them remain.
pub open spec fn claim_communities(cs: Seq<Seq<usize>>, min_size: nat, taken: Set<usize>) -> Seq<Seq<usize>>
    decreases cs.len(),
{
    if cs.len() == 0 {
        seq![]
    } else {
        let fresh = unclaimed(cs[0], taken);
        if fresh.len() >= min_size {
            seq![fresh] + claim_communities(cs.drop_first(), min_size, taken.union(fresh.to_set()))
        } else {
            claim_communities(cs.drop_first(), min_size, taken)
        }
    }
}

/// The non-overlapping communities extracted from candidate communities:
/// candidates are visited largest first, and the survivors are reported
/// largest first.
pub open spec fn unique_communities(cs: Seq<Seq<usize>>, min_size: nat) -> Seq<Seq<usize>> {
    sort_by_size(claim_communities(sort_by_size(cs), min_size, Set::empty()))
}

proof fn lemma_claim_communities(cs: Seq<Seq<usize>>, min_size: nat, taken: Set<usize>)
    ensures
        forall|i: int| 0 <= i < claim_communities(cs, min_size, taken).len()
            ==> #[trigger] claim_communities(cs, min_size, taken)[i].len() >= min_size,
        forall|i: int, x: usize| 0 <= i < claim_communities(cs, min_size, taken).len()
            && #[trigger] claim_communities(cs, min_size, taken)[i].contains(x)
            ==> !taken.contains(x) && exists|k: int| 0 <= k < cs.len() && #[trigger] cs[k].contains(x),
        forall|i: int, j: int, x: usize| 0 <= i < j < claim_communities(cs, min_size, taken).len()
            && #[trigger] claim_communities(cs, min_size, taken)[i].contains(x)
            ==> !(#[trigger] claim_communities(cs, min_size, taken)[j].contains(x)),
    decreases cs.len(),
{
    broadcast use vstd::seq_lib::group_filter_ensures;
    if cs.len() > 0 {
        let g = claim_communities(cs, min_size, taken);
        let fresh = unclaimed(cs[0], taken);
        let rest = cs.drop_first();
        if fresh.len() >= min_size {
            let taken2 = taken.union(fresh.to_set());
            lemma_claim_communities(rest, min_size, taken2);
            let g2 = claim_communities(rest, min_size, taken2);
            assert(g == seq![fresh] + g2);
            assert forall|i: int, x: usize| 0 <= i < g.len() && #[trigger] g[i].contains(x)
                implies !taken.contains(x) && exists|k: int| 0 <= k < cs.len() && #[trigger] cs[k].contains(x) by {
                if i == 0 {
                    cs[0].lemma_filter_contains_rev(|x: usize| !taken.contains(x), x);
                    assert(cs[0].contains(x));
                } else {
                    assert(g[i] == g2[i - 1]);
                    let k = choose|k: int| 0 <= k < rest.len() && #[trigger] rest[k].contains(x);
                    assert(cs[k + 1] == rest[k]);
                }
            }
            assert forall|i: int, j: int, x: usize| 0 <= i < j < g.len() && #[trigger] g[i].contains(x)
                implies !(#[trigger] g[j].contains(x)) by {
                assert(g[j] == g2[j - 1]);
                if i == 0 {
                    assert(fresh.to_set().contains(x));
                    assert(taken2.contains(x));
                } else {
                    assert(g[i] == g2[i - 1]);
                }
            }
            assert forall|i: int| 0 <= i < g.len() implies #[trigger] g[i].len() >= min_size by {
                if i > 0 {
                    assert(g[i] == g2[i - 1]);
                }
            }
        } else {
            lemma_claim_communities(rest, min_size, taken);
            let g2 = claim_communities(rest, min_size, taken);
            assert(g == g2);
            assert forall|i: int, x: usize| 0 <= i < g.len() && #[trigger] g[i].contains(x)
                implies !taken.contains(x) && exists|k: int| 0 <= k < cs.len() && #[trigger] cs[k].contains(x) by {
                assert(g2[i].contains(x));
                let k = choose|k: int| 0 <= k < rest.len() && #[trigger] rest[k].contains(x);
                assert(cs[k + 1] == rest[k]);
            }
        }
    }
}

/// The communities found are pairwise disjoint, each holds at least
/// `min_size` members, they are reported largest first, and every member
/// comes from one of the candidate communities.
pub proof fn lemma_unique_communities(cs: Seq<Seq<usize>>, min_size: nat)
    ensures
        sorted_by_size(unique_communities(cs, min_size)),
        forall|i: int| 0 <= i < unique_communities(cs, min_size).len()
            ==> #[trigger] unique_communities(cs, min_size)[i].len() >= min_size,
        forall|i: int, j: int, x: usize|
            0 <= i < unique_communities(cs, min_size).len() && 0 <= j < unique_communities(cs, min_size).len()
            && i != j && #[trigger] unique_communities(cs, min_size)[i].contains(x)
            ==> !(#[trigger] unique_communities(cs, min_size)[j].contains(x)),
        forall|i: int, x: usize| 0 <= i < unique_communities(cs, min_size).len()
            && #[trigger] unique_communities(cs, min_size)[i].contains(x)
            ==> exists|k: int| 0 <= k < cs.len() && #[trigger] cs[k].contains(x),
{
    let s1 = sort_by_size(cs);
    let q = lemma_sort_by_size_permutes(cs);
    let g = claim_communities(s1, min_size, Set::empty());
    lemma_claim_communities(s1, min_size, Set::empty());
    let p = lemma_sort_by_size_permutes(g);
    lemma_sort_by_size_sorted(g);
    let r = unique_communities(cs, min_size);
    assert forall|i: int| 0 <= i < r.len() implies #[trigger] r[i].len() >= min_size by {
        assert(r[i] == g[p[i]]);
    }
    assert forall|i: int, j: int, x: usize| 0 <= i < r.len() && 0 <= j < r.len() && i != j
        && #[trigger] r[i].contains(x) implies !(#[trigger] r[j].contains(x)) by {
        assert(r[i] == g[p[i]] && r[j] == g[p[j]]);
        assert(p[i] != p[j]);
        if p[i] < p[j] {
            assert(g[p[i]].contains(x));
        } else {
            if r[j].contains(x) {
                assert(g[p[j]].contains(x));
                assert(!g[p[i]].contains(x));
            }
        }
    }
    assert forall|i: int, x: usize| 0 <= i < r.len() && #[trigger] r[i].contains(x)
        implies exists|k: int| 0 <= k < cs.len() && #[trigger] cs[k].contains(x) by {
        assert(r[i] == g[p[i]]);
        assert(g[p[i]].contains(x));
        let m = choose|m: int| 0 <= m < s1.len() && #[trigger] s1[m].contains(x);
        assert(s1[m] == cs[q[m]]);
    }
}

fn unclaimed_members(c: &Vec<usize>, taken: &HashSetWithView<usize>) -> (res: Vec<usize>)
    ensures
        res@ == unclaimed(c@, taken@),
{
    let mut res: Vec<usize> = Vec::new();
    let mut j: usize = 0;
    while j < c.len()
        invariant
            j <= c.len(),
            res@ == unclaimed(c@.take(j as int), taken@),
        decreases c.len() - j,
    {
        proof {
            reveal_with_fuel(Seq::filter, 1);
            assert(c@.take(j + 1).drop_last() =~= c@.take(j as int));
            assert(c@.take(j + 1).last() == c@[j as int]);
        }
        if !taken.contains(&c[j]) {
            res.push(c[j]);
        }
        j = j + 1;
    }
    assert(c@.take(j as int) =~= c@);
    res
}

fn claim_members(taken: &mut HashSetWithView<usize>, fresh: &Vec<usize>)
    ensures
        final(taken)@ == old(taken)@.union(fresh@.to_set()),
{
    let ghost start = taken@;
    let mut k: usize = 0;
    while k < fresh.len()
        invariant
            k <= fresh.len(),
            taken@ == start.union(fresh@.take(k as int).to_set()),
        decreases fresh.len() - k,
    {
        let ghost before = taken@;
        taken.insert(fresh[k]);
        proof {
            let t1 = fresh@.take(k as int);
            let t2 = fresh@.take(k + 1);
            assert forall|a: usize| t2.contains(a) <==> (t1.contains(a) || a == fresh@[k as int]) by {
                if t2.contains(a) {
                    let w = choose|w: int| 0 <= w < t2.len() && t2[w] == a;
                    if w < k {
                        assert(t1[w] == a);
                    }
                }
                if t1.contains(a) {
                    let w = choose|w: int| 0 <= w < t1.len() && t1[w] == a;
                    assert(t2[w] == a);
                }
                if a == fresh@[k as int] {
                    assert(t2[k as int] == a);
                }
            }
            assert(taken@ =~= start.union(t2.to_set()));
        }
        k = k + 1;
    }
    assert(fresh@.take(k as int) =~= fresh@);
}

/// Extracts non-overlapping communities from candidate communities.
/// Candidates are visited largest first; each keeps the members that no
/// earlier kept community has claimed, and is kept when at least
/// `min_cluster_size` members remain. The kept communities are returned
/// largest first.
pub fn select_unique_communities(extracted: Vec<Vec<usize>>, min_cluster_size: usize) -> (res: Vec<Vec<usize>>)
    ensures
        rows_view(res@) == unique_communities(rows_view(extracted@), min_cluster_size as nat),
{
    broadcast use vstd::std_specs::hash::group_hash_axioms;
    let sorted = sort_communities(extracted);
    let ghost ss = rows_view(sorted@);
    let ghost min = min_cluster_size as nat;
    let mut taken: HashSetWithView<usize> = HashSetWithView::new();
    let mut unique: Vec<Vec<usize>> = Vec::new();
    let mut i: usize = 0;
    assert(ss.skip(0) =~= ss);
    assert(rows_view(unique@) + claim_communities(ss, min, taken@) =~= claim_communities(ss, min, taken@));
    while i < sorted.len()
        invariant
            i <= sorted.len(),
            ss == rows_view(sorted@),
            min == min_cluster_size as nat,
            claim_communities(ss, min, Set::empty())
                == rows_view(unique@) + claim_communities(ss.skip(i as int), min, taken@),
        decreases sorted.len() - i,
    {
        let ghost before = rows_view(unique@);
        let ghost taken0 = taken@;
        let fresh = unclaimed_members(&sorted[i], &taken);
        proof {
            assert(ss.skip(i as int)[0] == ss[i as int]);
            assert(ss.skip(i as int).drop_first() =~= ss.skip(i + 1));
        }
        if fresh.len() >= min_cluster_size {
            claim_members(&mut taken, &fresh);
            unique.push(fresh);
            assert(rows_view(unique@) =~= before + seq![fresh@]);
            assert(before + seq![fresh@] + claim_communities(ss.skip(i + 1), min, taken@)
                =~= before + (seq![fresh@] + claim_communities(ss.skip(i + 1), min, taken@)));
        } else {
            assert(rows_view(unique@) =~= before);
        }
        i = i + 1;
    }
    assert(ss.skip(i as int).len() == 0);
    assert(rows_view(unique@) + claim_communities(ss.skip(i as int), min, taken@) =~= rows_view(unique@));
    sort_communities(unique)
}


/// Every row is at least as long as the first one.
pub open spec fn rows_cover_first<T>(m: Seq<Seq<T>>) -> bool {
    m.len() > 0 ==> forall|i: int| 0 <= i < m.len() ==> #[trigger] m[i].len() >= m[0].len()
}

/// All rows have the same length.
pub open spec fn is_rectangular<T>(m: Seq<Seq<T>>) -> bool {
    forall|i: int| 0 <= i < m.len() ==> #[trigger] m[i].len() == m[0].len()
}

/// The transpose of a matrix whose width is that of its first row; a matrix
/// without rows or with an empty first row transposes to no rows.
pub open spec fn transposed<T>(m: Seq<Seq<T>>) -> Seq<Seq<T>> {
    if m.len() == 0 || m[0].len() == 0 {
        seq![]
    } else {
        Seq::new(m[0].len(), |j: int| Seq::new(m.len(), |i: int| m[i][j]))
    }
}

/// Transposing a non-empty rectangular matrix twice gives it back.
pub proof fn lemma_transpose_involution<T>(m: Seq<Seq<T>>)
    requires
        m.len() > 0,
        m[0].len() > 0,
        is_rectangular(m),
    ensures
        transposed(transposed(m)) == m,
{
    let t = transposed(m);
    assert(t[0].len() == m.len());
    let tt = transposed(t);
    assert forall|i: int| 0 <= i < m.len() implies #[trigger] tt[i] == m[i] by {
        assert(tt[i] =~= m[i]);
    }
    assert(tt =~= m);
}

/// Transposes a matrix given as a vector of rows. The width is that of the
/// first row; every row must be at least that long.
pub fn transpose<T: Copy>(matrix: Vec<Vec<T>>) -> (res: Vec<Vec<T>>)
    requires
        rows_cover_first(rows_view(matrix@)),
    ensures
        rows_view(res@) == transposed(rows_view(matrix@)),
{
    let ghost m = rows_view(matrix@);
    if matrix.len() == 0 || matrix[0].len() == 0 {
        let res: Vec<Vec<T>> = Vec::new();
        assert(rows_view(res@) =~= transposed(m));
        return res;
    }
    let rows: usize = matrix.len();
    let cols: usize = matrix[0].len();
    let mut res: Vec<Vec<T>> = Vec::new();
    let mut j: usize = 0;
    while j < cols
        invariant
            rows == matrix.len(),
            rows > 0,
            cols == matrix[0].len(),
            m == rows_view(matrix@),
            rows_cover_first(m),
            j <= cols,
            res.len() == j,
            forall|a: int| 0 <= a < j ==> #[trigger] res[a]@ == transposed(m)[a],
        decreases cols - j,
    {
        let mut row: Vec<T> = Vec::new();
        let mut i: usize = 0;
        while i < rows
            invariant
                rows == matrix.len(),
                cols == matrix[0].len(),
                m == rows_view(matrix@),
                rows_cover_first(m),
                j < cols,
                i <= rows,
                row.len() == i,
                forall|b: int| 0 <= b < i ==> #[trigger] row[b] == m[b][j as int],
            decreases rows - i,
        {
            assert(m[i as int].len() >= m[0].len());
            assert(m[i as int] == matrix[i as int]@);
            row.push(matrix[i][j]);
            i = i + 1;
        }
        assert(row@ =~= transposed(m)[j as int]);
        res.push(row);
        j = j + 1;
    }
    assert(rows_view(res@) =~= transposed(m));
    res
}

/// Number of closest neighbours first examined for each candidate row:
/// twice the minimum community size, at least 50, at most the number of rows.
pub open spec fn initial_window_size(min_cluster_size: nat, emb_len: nat) -> nat {
    let wanted: nat = if 2 * min_cluster_size > 50 { 2 * min_cluster_size } else { 50 };
    if wanted < emb_len { wanted } else { emb_len }
}

/// First number of neighbours to examine per row.
pub fn initial_window(min_cluster_size: usize, emb_len: usize) -> (res: usize)
    requires
        min_cluster_size <= usize::MAX / 2,
    ensures
        res == initial_window_size(min_cluster_size as nat, emb_len as nat),
{
    let doubled: usize = 2 * min_cluster_size;
    let wanted: usize = if doubled > 50 { doubled } else { 50 };
    if wanted < emb_len { wanted } else { emb_len }
}

/// Widens the neighbour window: twice as large, capped at the number of rows.
pub fn grow_window(size: usize, emb_len: usize) -> (res: usize)
    requires
        size <= usize::MAX / 2,
    ensures
        res == (if 2 * size < emb_len { 2 * size } else { emb_len as int }),
{
    let doubled: usize = 2 * size;
    if doubled < emb_len { doubled } else { emb_len }
}

proof fn lemma_filter_all<A>(s: Seq<A>, pred: spec_fn(A) -> bool)
    requires
        forall|i: int| 0 <= i < s.len() ==> pred(#[trigger] s[i]),
    ensures
        s.filter(pred) == s,
    decreases s.len(),
{
    reveal(Seq::filter);
    if s.len() > 0 {
        lemma_filter_all(s.drop_last(), pred);
        assert(s.drop_last().push(s.last()) =~= s);
    }
}

proof fn lemma_filter_no_duplicates<A>(s: Seq<A>, pred: spec_fn(A) -> bool)
    requires
        s.no_duplicates(),
    ensures
        s.filter(pred).no_duplicates(),
    decreases s.len(),
{
    broadcast use vstd::seq_lib::group_filter_ensures;
    reveal(Seq::filter);
    if s.len() > 0 {
        let d = s.drop_last();
        assert(d.no_duplicates());
        lemma_filter_no_duplicates(d, pred);
        if pred(s.last()) {
            let f = d.filter(pred);
            if f.contains(s.last()) {
                d.lemma_filter_contains_rev(pred, s.last());
                let w = choose|w: int| 0 <= w < d.len() && d[w] == s.last();
                assert(s[w] == s[s.len() - 1]);
            }
            let g = f.push(s.last());
            assert forall|i: int, j: int| 0 <= i < g.len() && 0 <= j < g.len() && i != j implies g[i] != g[j] by {
                if i < f.len() && j < f.len() {
                    assert(g[i] == f[i] && g[j] == f[j]);
                } else if i < f.len() {
                    assert(f.contains(g[i]));
                } else {
                    assert(f.contains(g[j]));
                }
            }
        }
    }
}

proof fn lemma_claim_no_duplicates(cs: Seq<Seq<usize>>, min_size: nat, taken: Set<usize>)
    requires
        forall|k: int| 0 <= k < cs.len() ==> (#[trigger] cs[k]).no_duplicates(),
    ensures
        forall|i: int| 0 <= i < claim_communities(cs, min_size, taken).len()
            ==> (#[trigger] claim_communities(cs, min_size, taken)[i]).no_duplicates(),
    decreases cs.len(),
{
    if cs.len() > 0 {
        let fresh = unclaimed(cs[0], taken);
        let rest = cs.drop_first();
        assert forall|k: int| 0 <= k < rest.len() implies (#[trigger] rest[k]).no_duplicates() by {
            assert(rest[k] == cs[k + 1]);
        }
        lemma_filter_no_duplicates(cs[0], |x: usize| !taken.contains(x));
        let g = claim_communities(cs, min_size, taken);
        if fresh.len() >= min_size {
            let taken2 = taken.union(fresh.to_set());
            lemma_claim_no_duplicates(rest, min_size, taken2);
            let g2 = claim_communities(rest, min_size, taken2);
            assert(g == seq![fresh] + g2);
            assert forall|i: int| 0 <= i < g.len() implies (#[trigger] g[i]).no_duplicates() by {
                if i > 0 {
                    assert(g[i] == g2[i - 1]);
                } else {
                    assert(g[0] == fresh);
                }
            }
        } else {
            lemma_claim_no_duplicates(rest, min_size, taken);
            assert(g == claim_communities(rest, min_size, taken));
        }
    }
}

/// When no candidate community repeats a member, no extracted community does.
pub proof fn lemma_unique_communities_no_duplicates(cs: Seq<Seq<usize>>, min_size: nat)
    requires
        forall|k: int| 0 <= k < cs.len() ==> (#[trigger] cs[k]).no_duplicates(),
    ensures
        forall|i: int| 0 <= i < unique_communities(cs, min_size).len()
            ==> (#[trigger] unique_communities(cs, min_size)[i]).no_duplicates(),
{
    let s1 = sort_by_size(cs);
    let q = lemma_sort_by_size_permutes(cs);
    assert forall|m: int| 0 <= m < s1.len() implies (#[trigger] s1[m]).no_duplicates() by {
        assert(s1[m] == cs[q[m]]);
    }
    let g = claim_communities(s1, min_size, Set::empty());
    lemma_claim_no_duplicates(s1, min_size, Set::empty());
    let p = lemma_sort_by_size_permutes(g);
    let r = unique_communities(cs, min_size);
    assert forall|i: int| 0 <= i < r.len() implies (#[trigger] r[i]).no_duplicates() by {
        assert(r[i] == g[p[i]]);
    }
}

/// `x` is a member of one of the communities.
pub open spec fn represented(x: usize, g: Seq<Seq<usize>>) -> bool {
    exists|i: int| 0 <= i < g.len() && #[trigger] g[i].contains(x)
}

proof fn lemma_claim_covers(cs: Seq<Seq<usize>>, min_size: nat, taken: Set<usize>)
    ensures
        forall|k: int| 0 <= k < cs.len() && (#[trigger] cs[k]).len() >= min_size && cs[k].len() > 0
            ==> exists|x: usize| #[trigger] cs[k].contains(x)
                && (taken.contains(x) || represented(x, claim_communities(cs, min_size, taken))),
    decreases cs.len(),
{
    broadcast use vstd::seq_lib::group_filter_ensures;
    if cs.len() > 0 {
        let c0 = cs[0];
        let pred = |x: usize| !taken.contains(x);
        let fresh = unclaimed(c0, taken);
        let rest = cs.drop_first();
        let g = claim_communities(cs, min_size, taken);
        if fresh.len() >= min_size {
            let taken2 = taken.union(fresh.to_set());
            lemma_claim_covers(rest, min_size, taken2);
            let g2 = claim_communities(rest, min_size, taken2);
            assert(g == seq![fresh] + g2);
            assert forall|k: int| 0 <= k < cs.len() && (#[trigger] cs[k]).len() >= min_size && cs[k].len() > 0
                implies exists|x: usize| #[trigger] cs[k].contains(x)
                    && (taken.contains(x) || represented(x, g)) by {
                if k == 0 {
                    if exists|x: usize| #[trigger] c0.contains(x) && taken.contains(x) {
                    } else {
                        let x = c0[0];
                        assert(c0.contains(x));
                        assert(pred(c0[0]));
                        c0.lemma_filter_contains(pred, 0);
                        assert(g[0].contains(x));
                        assert(represented(x, g));
                    }
                } else {
                    assert(cs[k] == rest[k - 1]);
                    let x = choose|x: usize| #[trigger] rest[k - 1].contains(x)
                        && (taken2.contains(x) || represented(x, g2));
                    if represented(x, g2) {
                        let i = choose|i: int| 0 <= i < g2.len() && #[trigger] g2[i].contains(x);
                        assert(g[i + 1] == g2[i]);
                        assert(represented(x, g));
                    } else if !taken.contains(x) {
                        assert(fresh.to_set().contains(x));
                        assert(g[0].contains(x));
                        assert(represented(x, g));
                    }
                }
            }
        } else {
            lemma_claim_covers(rest, min_size, taken);
            let g2 = claim_communities(rest, min_size, taken);
            assert(g == g2);
            assert forall|k: int| 0 <= k < cs.len() && (#[trigger] cs[k]).len() >= min_size && cs[k].len() > 0
                implies exists|x: usize| #[trigger] cs[k].contains(x)
                    && (taken.contains(x) || represented(x, g)) by {
                if k == 0 {
                    if !(exists|x: usize| #[trigger] c0.contains(x) && taken.contains(x)) {
                        assert forall|i: int| 0 <= i < c0.len() implies pred(#[trigger] c0[i]) by {
                            assert(c0.contains(c0[i]));
                        }
                        lemma_filter_all(c0, pred);
                        assert(false);
                    }
                } else {
                    assert(cs[k] == rest[k - 1]);
                    let x = choose|x: usize| #[trigger] rest[k - 1].contains(x)
                        && (taken.contains(x) || represented(x, g2));
                    assert(cs[k].contains(x));
                }
            }
        }
    }
}

/// No candidate community with at least `min_size` members is passed over
/// entirely: each shares a member with some extracted community.
pub proof fn lemma_unique_communities_cover(cs: Seq<Seq<usize>>, min_size: nat)
    ensures
        forall|k: int| 0 <= k < cs.len() && (#[trigger] cs[k]).len() >= min_size && cs[k].len() > 0
            ==> exists|x: usize| #[trigger] cs[k].contains(x) && represented(x, unique_communities(cs, min_size)),
{
    let s1 = sort_by_size(cs);
    let q = lemma_sort_by_size_permutes(cs);
    let g = claim_communities(s1, min_size, Set::empty());
    lemma_claim_covers(s1, min_size, Set::empty());
    let p = lemma_sort_by_size_permutes(g);
    let r = unique_communities(cs, min_size);
    assert forall|k: int| 0 <= k < cs.len() && (#[trigger] cs[k]).len() >= min_size && cs[k].len() > 0
        implies exists|x: usize| #[trigger] cs[k].contains(x) && represented(x, r) by {
        assert(hits(q, k));
        let m = choose|m: int| 0 <= m < cs.len() && #[trigger] q[m] == k;
        assert(s1[m] == cs[k]);
        let x = choose|x: usize| #[trigger] s1[m].contains(x)
            && (Set::<usize>::empty().contains(x) || represented(x, g));
        let i = choose|i: int| 0 <= i < g.len() && #[trigger] g[i].contains(x);
        assert(hits(p, i));
        let j = choose|j: int| 0 <= j < g.len() && #[trigger] p[j] == i;
        assert(r[j] == g[i]);
        assert(cs[k].contains(x));
    }
}

/// The members that a community kept at position `i` of `g` may take: those
/// outside `taken` that no community kept before it already holds.
spec fn still_free(taken: Set<usize>, g: Seq<Seq<usize>>, i: int) -> spec_fn(usize) -> bool {
    |x: usize| !taken.contains(x) && forall|j: int| 0 <= j < i ==> !g[j].contains(x)
}

proof fn lemma_claim_free_members(cs: Seq<Seq<usize>>, min_size: nat, taken: Set<usize>)
    ensures
        forall|i: int| 0 <= i < claim_communities(cs, min_size, taken).len() ==> exists|k: int|
            0 <= k < cs.len() && #[trigger] claim_communities(cs, min_size, taken)[i]
                == cs[k].filter(still_free(taken, claim_communities(cs, min_size, taken), i)),
    decreases cs.len(),
{
    if cs.len() > 0 {
        let g = claim_communities(cs, min_size, taken);
        let fresh = unclaimed(cs[0], taken);
        let rest = cs.drop_first();
        if fresh.len() >= min_size {
            let taken2 = taken.union(fresh.to_set());
            lemma_claim_free_members(rest, min_size, taken2);
            let g2 = claim_communities(rest, min_size, taken2);
            assert(g == seq![fresh] + g2);
            assert forall|i: int| 0 <= i < g.len() implies exists|k: int|
                0 <= k < cs.len() && #[trigger] g[i] == cs[k].filter(still_free(taken, g, i)) by {
                if i == 0 {
                    assert(still_free(taken, g, 0) =~= (|x: usize| !taken.contains(x)));
                    assert(g[0] == cs[0].filter(still_free(taken, g, 0)));
                } else {
                    assert(g[i] == g2[i - 1]);
                    let k = choose|k: int| 0 <= k < rest.len() && #[trigger] g2[i - 1] == rest[k].filter(still_free(taken2, g2, i - 1));
                    assert(rest[k] == cs[k + 1]);
                    assert forall|x: usize| #[trigger] still_free(taken2, g2, i - 1)(x) == still_free(taken, g, i)(x) by {
                        broadcast use vstd::seq_lib::group_filter_ensures;
                        assert(g[0] == fresh);
                        if fresh.contains(x) {
                            assert(fresh.to_set().contains(x));
                        }
                        if fresh.to_set().contains(x) {
                            assert(fresh.contains(x));
                        }
                        if forall|j: int| 0 <= j < i - 1 ==> !g2[j].contains(x) {
                            assert forall|j: int| 1 <= j < i implies !g[j].contains(x) by {
                                assert(g[j] == g2[j - 1]);
                            }
                        }
                        if forall|j: int| 0 <= j < i ==> !g[j].contains(x) {
                            assert forall|j: int| 0 <= j < i - 1 implies !g2[j].contains(x) by {
                                assert(g[j + 1] == g2[j]);
                            }
                        }
                    }
                    assert(still_free(taken2, g2, i - 1) =~= still_free(taken, g, i));
                    assert(g[i] == cs[k + 1].filter(still_free(taken, g, i)));
                }
            }
        } else {
            lemma_claim_free_members(rest, min_size, taken);
            let g2 = claim_communities(rest, min_size, taken);
            assert(g == g2);
            assert forall|i: int| 0 <= i < g.len() implies exists|k: int|
                0 <= k < cs.len() && #[trigger] g[i] == cs[k].filter(still_free(taken, g, i)) by {
                let k = choose|k: int| 0 <= k < rest.len() && #[trigger] g2[i] == rest[k].filter(still_free(taken, g2, i));
                assert(rest[k] == cs[k + 1]);
            }
        }
    }
}

/// Visiting candidates in order, every kept community is one candidate with
/// exactly its already-claimed members removed: each member of that
/// candidate that is neither in `taken` nor held by an earlier kept
/// community stays, in the candidate's order, and nothing else is added.
pub proof fn lemma_claim_keeps_every_free_member(cs: Seq<Seq<usize>>, min_size: nat, taken: Set<usize>)
    ensures
        forall|i: int| 0 <= i < claim_communities(cs, min_size, taken).len() ==> exists|k: int|
            0 <= k < cs.len() && #[trigger] claim_communities(cs, min_size, taken)[i]
                == cs[k].filter(|x: usize| !taken.contains(x)
                    && forall|j: int| 0 <= j < i ==> !claim_communities(cs, min_size, taken)[j].contains(x)),
{
    let g = claim_communities(cs, min_size, taken);
    lemma_claim_free_members(cs, min_size, taken);
    assert forall|i: int| 0 <= i < g.len() implies exists|k: int|
        0 <= k < cs.len() && #[trigger] g[i]
            == cs[k].filter(|x: usize| !taken.contains(x) && forall|j: int| 0 <= j < i ==> !g[j].contains(x)) by {
        let k = choose|k: int| 0 <= k < cs.len() && #[trigger] g[i] == cs[k].filter(still_free(taken, g, i));
        assert(still_free(taken, g, i) =~= (|x: usize| !taken.contains(x) && forall|j: int| 0 <= j < i ==> !g[j].contains(x)));
    }
}

/// A single candidate community with at least `min_size` members is
/// extracted whole: the result is exactly that candidate.
pub proof fn lemma_single_candidate_kept_whole(c: Seq<usize>, min_size: nat)
    requires
        c.len() >= min_size,
    ensures
        unique_communities(seq![c], min_size) == seq![c],
{
    let cs = seq![c];
    assert(cs.drop_last() =~= Seq::<Seq<usize>>::empty());
    assert(sort_by_size(cs) == insert_by_size(sort_by_size(cs.drop_last()), c));
    assert(sort_by_size(cs) =~= cs);
    assert forall|i: int| 0 <= i < c.len() implies (|x: usize| !Set::<usize>::empty().contains(x))(#[trigger] c[i]) by {}
    lemma_filter_all(c, |x: usize| !Set::<usize>::empty().contains(x));
    let g = claim_communities(cs, min_size, Set::empty());
    assert(cs.drop_first() =~= Seq::<Seq<usize>>::empty());
    assert(unclaimed(cs[0], Set::empty()) == c);
    assert(claim_communities(cs.drop_first(), min_size, Set::empty().union(c.to_set())) == Seq::<Seq<usize>>::empty());
    assert(g =~= cs);
}

/// When some candidate has at least `min_size` members, a largest candidate
/// is among the extracted communities, whole.
pub proof fn lemma_largest_candidate_kept_whole(cs: Seq<Seq<usize>>, min_size: nat)
    requires
        exists|i: int| 0 <= i < cs.len() && #[trigger] cs[i].len() >= min_size,
    ensures
        exists|k: int, j: int| 0 <= k < cs.len() && 0 <= j < unique_communities(cs, min_size).len()
            && #[trigger] unique_communities(cs, min_size)[j] == #[trigger] cs[k]
            && forall|i: int| 0 <= i < cs.len() ==> #[trigger] cs[i].len() <= cs[k].len(),
{
    let s1 = sort_by_size(cs);
    let q = lemma_sort_by_size_permutes(cs);
    lemma_sort_by_size_sorted(cs);
    let i0 = choose|i: int| 0 <= i < cs.len() && #[trigger] cs[i].len() >= min_size;
    assert(hits(q, i0));
    let m0 = choose|m: int| 0 <= m < q.len() && #[trigger] q[m] == i0;
    assert(s1[m0] == cs[i0]);
    if m0 > 0 {
        assert(s1[0].len() >= s1[m0].len());
    }
    let pred = |x: usize| !Set::<usize>::empty().contains(x);
    assert forall|i: int| 0 <= i < s1[0].len() implies pred(#[trigger] s1[0][i]) by {}
    lemma_filter_all(s1[0], pred);
    let g = claim_communities(s1, min_size, Set::empty());
    assert(g[0] == s1[0]);
    let p = lemma_sort_by_size_permutes(g);
    let r = unique_communities(cs, min_size);
    assert(hits(p, 0));
    let j = choose|j: int| 0 <= j < p.len() && #[trigger] p[j] == 0;
    assert(r[j] == g[0]);
    let k = q[0];
    assert(s1[0] == cs[k]);
    assert forall|i: int| 0 <= i < cs.len() implies #[trigger] cs[i].len() <= cs[k].len() by {
        assert(hits(q, i));
        let m = choose|m: int| 0 <= m < q.len() && #[trigger] q[m] == i;
        assert(s1[m] == cs[i]);
        if m > 0 {
            assert(s1[0].len() >= s1[m].len());
        }
    }
    assert(r[j] == cs[k]);
}

} // verus!
