//! The immutable problem instance: a universe of named elements, assigned
//! dense indices in first-encounter order, and a family of subsets stored as
//! a flat row-major boolean membership matrix.

use vstd::prelude::*;

verus! {

/// A subset index that is not below the subset count, together with the
/// bound it violated.
#[derive(Debug, Clone, Copy, PartialEq, Eq, Structural)]
pub struct IndexOutOfRange {
    pub index: usize,
    pub bound: usize,
}

/// The views of a sequence of strings.
pub open spec fn views_of(names: Seq<String>) -> Seq<Seq<char>> {
    Seq::new(names.len(), |t: int| names[t]@)
}

/// The views of a family of subsets of element names.
pub open spec fn family_views(subsets: Seq<Vec<String>>) -> Seq<Seq<Seq<char>>> {
    Seq::new(subsets.len(), |i: int| views_of(subsets[i]@))
}

/// Keeps the first occurrence of every name, in order of first encounter.
pub open spec fn dedup_first(s: Seq<Seq<char>>) -> Seq<Seq<char>>
    decreases s.len(),
{
    if s.len() == 0 {
        Seq::empty()
    } else {
        let prefix = dedup_first(s.drop_last());
        if prefix.contains(s.last()) {
            prefix
        } else {
            prefix.push(s.last())
        }
    }
}

/// The universe drawn from a family of subsets: every distinct element name,
/// in order of first encounter across the flattened family.
pub open spec fn universe_of(subsets: Seq<Seq<Seq<char>>>) -> Seq<Seq<char>> {
    dedup_first(subsets.flatten())
}

/// The largest raw subset length in the family, 0 for an empty family.
pub open spec fn max_subset_len(subsets: Seq<Seq<Seq<char>>>) -> int
    decreases subsets.len(),
{
    if subsets.len() == 0 {
        0
    } else {
        let m = max_subset_len(subsets.drop_last());
        if subsets.last().len() > m {
            subsets.last().len() as int
        } else {
            m
        }
    }
}

/// The smallest raw subset length in the family, 0 for an empty family.
pub open spec fn min_subset_len(subsets: Seq<Seq<Seq<char>>>) -> int
    decreases subsets.len(),
{
    if subsets.len() == 0 {
        0
    } else if subsets.len() == 1 {
        subsets.last().len() as int
    } else {
        let m = min_subset_len(subsets.drop_last());
        if subsets.last().len() < m {
            subsets.last().len() as int
        } else {
            m
        }
    }
}

/// `dedup_first` keeps entries pairwise distinct, keeps exactly the members
/// of its input, and never grows it.
pub proof fn lemma_dedup_first_props(s: Seq<Seq<char>>)
    ensures
        forall|a: int, b: int|
            0 <= a < b < dedup_first(s).len() ==> dedup_first(s)[a] != dedup_first(s)[b],
        forall|x: Seq<char>| #[trigger] dedup_first(s).contains(x) <==> s.contains(x),
        dedup_first(s).len() <= s.len(),
    decreases s.len(),
{
    if s.len() == 0 {
        assert(forall|x: Seq<char>| !s.contains(x));
    } else {
        let t = s.drop_last();
        lemma_dedup_first_props(t);
        let d = dedup_first(t);
        assert forall|x: Seq<char>| s.contains(x) <==> t.contains(x) || x == s.last() by {
            if s.contains(x) {
                let k = choose|k: int| 0 <= k < s.len() && s[k] == x;
                if k < s.len() - 1 {
                    assert(t[k] == x);
                }
            }
            if t.contains(x) {
                let k = choose|k: int| 0 <= k < t.len() && t[k] == x;
                assert(s[k] == x);
            }
            if x == s.last() {
                assert(s[s.len() - 1] == x);
            }
        }
        if !d.contains(s.last()) {
            let d2 = d.push(s.last());
            assert forall|a: int, b: int|
                0 <= a < b < d2.len() implies d2[a] != d2[b] by {
                if b == d2.len() - 1 {
                    assert(d2[a] == d[a]);
                    if d[a] == s.last() {
                        assert(d.contains(s.last()));
                    }
                }
            }
            assert forall|x: Seq<char>| #[trigger] d2.contains(x) <==> d.contains(x) || x
                == s.last() by {
                if d2.contains(x) {
                    let k = choose|k: int| 0 <= k < d2.len() && d2[k] == x;
                    if k < d2.len() - 1 {
                        assert(d[k] == x);
                    }
                }
                if d.contains(x) {
                    let k = choose|k: int| 0 <= k < d.len() && d[k] == x;
                    assert(d2[k] == x);
                }
                if x == s.last() {
                    assert(d2[d2.len() - 1] == x);
                }
            }
        }
    }
}

/// A member of one subset is a member of the flattened family.
pub proof fn lemma_flatten_contains<A>(ss: Seq<Seq<A>>, i: int, x: A)
    requires
        0 <= i < ss.len(),
        ss[i].contains(x),
    ensures
        ss.flatten().contains(x),
    decreases ss.len(),
{
    if i == 0 {
        let k = choose|k: int| 0 <= k < ss[0].len() && ss[0][k] == x;
        assert(ss.flatten()[k] == x);
    } else {
        lemma_flatten_contains(ss.drop_first(), i - 1, x);
        let rest = ss.drop_first().flatten();
        let k = choose|k: int| 0 <= k < rest.len() && rest[k] == x;
        assert(ss.flatten()[ss.first().len() + k] == x);
    }
}

/// A row-column pair maps into the flat matrix, and distinct pairs map to
/// distinct flat indices.
pub proof fn lemma_row_col(rows: int, cols: int, r: int, c: int, i: int, k: int)
    requires
        0 <= r < rows,
        0 <= c < cols,
        0 <= i < rows,
        0 <= k < cols,
    ensures
        0 <= r * cols + c < rows * cols,
        (r * cols + c == i * cols + k) <==> (r == i && c == k),
    decreases rows,
{
    assert(0 <= r * cols + c < rows * cols) by (nonlinear_arith)
        requires
            0 <= r < rows,
            0 <= c < cols,
    ;
    assert((r * cols + c == i * cols + k) <==> (r == i && c == k)) by (nonlinear_arith)
        requires
            0 <= r < rows,
            0 <= c < cols,
            0 <= i < rows,
            0 <= k < cols,
    ;
}

/// Lexicographic order over character sequences, comparing code points;
/// a prefix comes before every extension of it.
pub open spec fn lex_le(a: Seq<char>, b: Seq<char>) -> bool
    decreases a.len(),
{
    if a.len() == 0 {
        true
    } else if b.len() == 0 {
        false
    } else if (a[0] as u32) == (b[0] as u32) {
        lex_le(a.drop_first(), b.drop_first())
    } else {
        (a[0] as u32) < (b[0] as u32)
    }
}

/// Any two character sequences compare in at least one direction.
pub proof fn lemma_lex_total(a: Seq<char>, b: Seq<char>)
    ensures
        lex_le(a, b) || lex_le(b, a),
    decreases a.len(),
{
    if a.len() > 0 && b.len() > 0 && (a[0] as u32) == (b[0] as u32) {
        lemma_lex_total(a.drop_first(), b.drop_first());
    }
}

/// Lexicographic order is transitive.
pub proof fn lemma_lex_trans(a: Seq<char>, b: Seq<char>, c: Seq<char>)
    requires
        lex_le(a, b),
        lex_le(b, c),
    ensures
        lex_le(a, c),
    decreases a.len(),
{
    if a.len() == 0 {
    } else if b.len() == 0 {
        assert(false);
    } else if c.len() == 0 {
        assert(false);
    } else if (a[0] as u32) == (b[0] as u32) && (b[0] as u32) == (c[0] as u32) {
        lemma_lex_trans(a.drop_first(), b.drop_first(), c.drop_first());
    }
}

/// Whether `a` sorts at or before `b`, comparing code points character
/// by character.
fn str_le(a: &str, b: &str) -> (r: bool)
    ensures
        r == lex_le(a@, b@),
{
    let la = a.unicode_len();
    let lb = b.unicode_len();
    let mut i: usize = 0;
    proof {
        assert(a@.skip(0) =~= a@);
        assert(b@.skip(0) =~= b@);
    }
    while i < la && i < lb
        invariant
            i <= la,
            i <= lb,
            la == a@.len(),
            lb == b@.len(),
            lex_le(a@, b@) == lex_le(a@.skip(i as int), b@.skip(i as int)),
        decreases la - i,
    {
        let ua = a.get_char(i) as u32;
        let ub = b.get_char(i) as u32;
        proof {
            assert(a@.skip(i as int)[0] == a@[i as int]);
            assert(b@.skip(i as int)[0] == b@[i as int]);
        }
        if ua < ub {
            return true;
        }
        if ua > ub {
            return false;
        }
        proof {
            assert(a@.skip(i as int).drop_first() =~= a@.skip(i as int + 1));
            assert(b@.skip(i as int).drop_first() =~= b@.skip(i as int + 1));
        }
        i += 1;
    }
    // one string ran out: a prefix sorts at or before every extension
    proof {
        if i >= la {
            assert(a@.skip(i as int) =~= Seq::<char>::empty());
        } else {
            assert(b@.skip(i as int) =~= Seq::<char>::empty());
            assert(a@.skip(i as int).len() > 0);
        }
    }
    i >= la
}

/// Whether a vector of subset indices holds the given index.
pub(crate) fn contains_usize(v: &Vec<usize>, x: usize) -> (r: bool)
    ensures
        r == v@.contains(x),
{
    let mut k: usize = 0;
    while k < v.len()
        invariant
            k <= v@.len(),
            forall|t: int| 0 <= t < k ==> v@[t] != x,
        decreases v@.len() - k,
    {
        if v[k] == x {
            return true;
        }
        k += 1;
    }
    false
}

/// Scans for a string among the element names; `Some` gives its index and
/// `None` says it is absent.
fn index_of_name(names: &Vec<String>, name: &String) -> (r: Option<usize>)
    ensures
        match r {
            Some(k) => k < names@.len() && names@[k as int]@ == name@,
            None => forall|t: int| 0 <= t < names@.len() ==> names@[t]@ != name@,
        },
{
    let mut k: usize = 0;
    while k < names.len()
        invariant
            k <= names@.len(),
            forall|t: int| 0 <= t < k ==> names@[t]@ != name@,
        decreases names@.len() - k,
    {
        if names[k] == *name {
            return Some(k);
        }
        k += 1;
    }
    None
}

/// The problem instance. `names[j]` is the element with index `j`; the
/// matrix holds `size_subsets * size_set` cells row-major, and cell
/// `(i, j)` says whether subset `i` contains element `j`.
pub struct SetModel {
    pub names: Vec<String>,
    pub matrix: Vec<bool>,
    pub size_set: usize,
    pub size_subsets: usize,
    pub min_subset: usize,
    pub max_subset: usize,
}

impl SetModel {
    /// Structural well-formedness: the dimensions agree with the vectors
    /// and the element names are pairwise distinct.
    pub open spec fn wf(self) -> bool {
        &&& self.size_set == self.names@.len()
        &&& self.matrix@.len() == self.size_subsets * self.size_set
        &&& self.size_subsets * self.size_set <= usize::MAX
        &&& forall|a: int, b: int|
            0 <= a < b < self.names@.len() ==> self.names@[a]@ != self.names@[b]@
    }

    /// Whether subset `i` contains the element with index `j`.
    pub open spec fn cell(self, i: int, j: int) -> bool {
        self.matrix@[i * self.size_set + j]
    }

    /// Every entry of `chosen` is a valid subset index.
    pub open spec fn valid_indices(self, chosen: Seq<usize>) -> bool {
        forall|k: int| 0 <= k < chosen.len() ==> (#[trigger] chosen[k]) < self.size_subsets
    }

    /// Whether position `k` holds the first out-of-range index in the
    /// family.
    pub open spec fn first_invalid_at(self, chosen: Seq<usize>, k: int) -> bool {
        &&& 0 <= k < chosen.len()
        &&& chosen[k] >= self.size_subsets
        &&& forall|t: int| 0 <= t < k ==> (#[trigger] chosen[t]) < self.size_subsets
    }

    /// Whether some subset in `chosen` contains the element with index `j`.
    pub open spec fn covers(self, chosen: Seq<usize>, j: int) -> bool {
        exists|k: int| 0 <= k < chosen.len() && self.cell(#[trigger] chosen[k] as int, j)
    }

    /// Whether at least one subset contains the element with index `j`.
    pub open spec fn element_coverable(self, j: int) -> bool {
        exists|i: int| 0 <= i < self.size_subsets && #[trigger] self.cell(i, j)
    }

    /// Whether every element of the universe lies in some subset, so that
    /// a full cover exists at all.
    pub open spec fn feasible(self) -> bool {
        forall|j: int| 0 <= j < self.size_set ==> #[trigger] self.element_coverable(j)
    }

    /// How many of the element indices below `n` are covered by `chosen`.
    pub open spec fn covered_below(self, chosen: Seq<usize>, n: int) -> int
        decreases n,
    {
        if n <= 0 {
            0
        } else {
            self.covered_below(chosen, n - 1) + if self.covers(chosen, n - 1) {
                1int
            } else {
                0int
            }
        }
    }

    /// The number of universe elements covered by the union of `chosen`.
    pub open spec fn covered_count(self, chosen: Seq<usize>) -> int {
        self.covered_below(chosen, self.size_set as int)
    }

    /// Builds the instance from a family of subsets of element names: the
    /// universe mapping in first-encounter order, the membership matrix,
    /// and the subset size statistics.
    pub fn new(subsets: Vec<Vec<String>>) -> (s: SetModel)
        requires
            subsets@.len() * universe_of(family_views(subsets@)).len() <= usize::MAX,
        ensures
            s.wf(),
            s.size_subsets == subsets@.len(),
            views_of(s.names@) == universe_of(family_views(subsets@)),
            s.size_set == universe_of(family_views(subsets@)).len(),
            forall|i: int, j: int|
                0 <= i < s.size_subsets && 0 <= j < s.size_set ==> s.cell(i, j)
                    == family_views(subsets@)[i].contains(s.names@[j]@),
            s.max_subset == max_subset_len(family_views(subsets@)),
            s.min_subset == min_subset_len(family_views(subsets@)),
    {
        let ghost fam = family_views(subsets@);
        let n_subsets = subsets.len();

        // First pass: record every element name once, in the order in which
        // it is first met while walking the subsets.
        let mut names: Vec<String> = Vec::new();
        proof {
            assert(fam.take(0).flatten() =~= Seq::<Seq<char>>::empty());
            assert(views_of(names@) =~= dedup_first(fam.take(0).flatten()));
        }
        for i in 0..n_subsets
            invariant
                n_subsets == subsets@.len(),
                fam == family_views(subsets@),
                views_of(names@) == dedup_first(fam.take(i as int).flatten()),
        {
            let n_elems = subsets[i].len();
            proof {
                assert(fam[i as int] =~= views_of(subsets@[i as int]@));
                assert(fam.take(i as int).flatten() + fam[i as int].take(0) =~= fam.take(
                    i as int,
                ).flatten());
            }
            for j in 0..n_elems
                invariant
                    n_subsets == subsets@.len(),
                    i < n_subsets,
                    fam == family_views(subsets@),
                    n_elems == subsets@[i as int]@.len(),
                    views_of(names@) == dedup_first(
                        fam.take(i as int).flatten() + fam[i as int].take(j as int),
                    ),
            {
                let name = &subsets[i][j];
                let ghost prev = fam.take(i as int).flatten() + fam[i as int].take(j as int);
                let ghost next = fam.take(i as int).flatten() + fam[i as int].take(j as int + 1);
                proof {
                    assert(fam[i as int] =~= views_of(subsets@[i as int]@));
                    assert(fam[i as int][j as int] == name@);
                    assert(next =~= prev.push(name@));
                    assert(next.drop_last() =~= prev);
                    assert(next.last() == name@);
                }
                match index_of_name(&names, name) {
                    Some(k) => {
                        proof {
                            assert(views_of(names@)[k as int] == name@);
                            assert(dedup_first(prev).contains(name@));
                            assert(dedup_first(next) == dedup_first(prev));
                        }
                    },
                    None => {
                        proof {
                            if dedup_first(prev).contains(name@) {
                                let t = choose|t: int|
                                    0 <= t < dedup_first(prev).len() && dedup_first(prev)[t]
                                        == name@;
                                assert(views_of(names@)[t] == name@);
                                assert(names@[t]@ == name@);
                            }
                            assert(!dedup_first(prev).contains(name@));
                            assert(dedup_first(next) == dedup_first(prev).push(name@));
                        }
                        let cloned = name.clone();
                        names.push(cloned);
                        proof {
                            assert(views_of(names@) =~= dedup_first(prev).push(name@));
                        }
                    },
                }
            }
            proof {
                assert(fam[i as int].take(n_elems as int) =~= fam[i as int]);
                assert(fam.take(i as int + 1) =~= fam.take(i as int).push(fam[i as int]));
                fam.take(i as int).lemma_flatten_push(fam[i as int]);
                assert(fam.take(i as int + 1).flatten() =~= fam.take(i as int).flatten() + fam[
                    i as int
                ]);
            }
        }
        proof {
            assert(fam.take(n_subsets as int) =~= fam);
            assert(views_of(names@) == universe_of(fam));
            lemma_dedup_first_props(fam.flatten());
            assert forall|a: int, b: int|
                0 <= a < b < names@.len() implies names@[a]@ != names@[b]@ by {
                assert(views_of(names@)[a] == names@[a]@);
                assert(views_of(names@)[b] == names@[b]@);
            }
        }
        let size = names.len();

        // Subset size statistics over the raw subset lengths.
        let mut min_subset: usize = 0;
        let mut max_subset: usize = 0;
        for i in 0..n_subsets
            invariant
                n_subsets == subsets@.len(),
                fam == family_views(subsets@),
                max_subset == max_subset_len(fam.take(i as int)),
                min_subset == min_subset_len(fam.take(i as int)),
        {
            let l = subsets[i].len();
            proof {
                assert(fam[i as int] =~= views_of(subsets@[i as int]@));
                assert(fam.take(i as int + 1).drop_last() =~= fam.take(i as int));
                assert(fam.take(i as int + 1).last() == fam[i as int]);
            }
            if i == 0 {
                min_subset = l;
                max_subset = l;
            } else {
                if l < min_subset {
                    min_subset = l;
                }
                if l > max_subset {
                    max_subset = l;
                }
            }
        }
        proof {
            assert(fam.take(n_subsets as int) =~= fam);
        }

        // Second pass: populate the flat membership matrix row by row.
        let total = n_subsets * size;
        let mut matrix: Vec<bool> = Vec::new();
        let mut t: usize = 0;
        while t < total
            invariant
                t <= total,
                matrix@.len() == t,
                forall|q: int| 0 <= q < t ==> matrix@[q] == false,
            decreases total - t,
        {
            matrix.push(false);
            t += 1;
        }
        for i in 0..n_subsets
            invariant
                n_subsets == subsets@.len(),
                fam == family_views(subsets@),
                size == names@.len(),
                views_of(names@) == universe_of(fam),
                forall|a: int, b: int| 0 <= a < b < size ==> names@[a]@ != names@[b]@,
                matrix@.len() == n_subsets * size,
                n_subsets * size <= usize::MAX,
                forall|r: int, c: int|
                    0 <= r < i && 0 <= c < size ==> matrix@[r * size + c] == fam[r].contains(
                        names@[c]@,
                    ),
                forall|q: int|
                    i as int * size <= q < n_subsets * size ==> #[trigger] matrix@[q] == false,
        {
            let n_elems = subsets[i].len();
            proof {
                assert(fam[i as int] =~= views_of(subsets@[i as int]@));
                assert((i as int + 1) * size == i as int * size + size) by (nonlinear_arith);
                assert(fam[i as int].take(0) =~= Seq::<Seq<char>>::empty());
                assert forall|c: int| 0 <= c < size implies #[trigger] matrix@[i as int * size
                    + c] == fam[i as int].take(0).contains(names@[c]@) by {
                    lemma_row_col(n_subsets as int, size as int, i as int, c, i as int, c);
                    assert(i as int * size + c < n_subsets * size);
                    assert(i as int * size <= i as int * size + c);
                }
            }
            for j in 0..n_elems
                invariant
                    n_subsets == subsets@.len(),
                    i < n_subsets,
                    fam == family_views(subsets@),
                    n_elems == subsets@[i as int]@.len(),
                    fam[i as int] == views_of(subsets@[i as int]@),
                    size == names@.len(),
                    views_of(names@) == universe_of(fam),
                    forall|a: int, b: int| 0 <= a < b < size ==> names@[a]@ != names@[b]@,
                    matrix@.len() == n_subsets * size,
                    n_subsets * size <= usize::MAX,
                    forall|r: int, c: int|
                        0 <= r < i && 0 <= c < size ==> matrix@[r * size + c] == fam[r].contains(
                            names@[c]@,
                        ),
                    forall|c: int|
                        0 <= c < size ==> #[trigger] matrix@[i as int * size + c] == fam[
                            i as int
                        ].take(j as int).contains(names@[c]@),
                    forall|q: int|
                        (i as int + 1) * size <= q < n_subsets * size ==> #[trigger] matrix@[q]
                            == false,
            {
                let name = &subsets[i][j];
                proof {
                    assert(fam[i as int] =~= views_of(subsets@[i as int]@));
                    assert(fam[i as int][j as int] == name@);
                    lemma_flatten_contains(fam, i as int, name@);
                    lemma_dedup_first_props(fam.flatten());
                    assert(universe_of(fam).contains(name@));
                    let u = choose|u: int|
                        0 <= u < universe_of(fam).len() && universe_of(fam)[u] == name@;
                    assert(views_of(names@)[u] == name@);
                    assert(names@[u]@ == name@);
                }
                match index_of_name(&names, name) {
                    Some(k) => {
                        proof {
                            lemma_row_col(
                                n_subsets as int,
                                size as int,
                                i as int,
                                k as int,
                                i as int,
                                k as int,
                            );
                        }
                        let idx = i * size + k;
                        let ghost old_matrix = matrix@;
                        matrix.set(idx, true);
                        proof {
                            assert(fam[i as int].take(j as int + 1) =~= fam[i as int].take(
                                j as int,
                            ).push(name@));
                            assert forall|q: int|
                                0 <= q < old_matrix.len() && q != i as int * size
                                    + k implies #[trigger] matrix@[q] == old_matrix[q] by {}
                            assert forall|r: int, c: int|
                                0 <= r < i && 0 <= c < size implies matrix@[r * size + c] == fam[
                                r
                            ].contains(names@[c]@) by {
                                lemma_row_col(
                                    n_subsets as int,
                                    size as int,
                                    r,
                                    c,
                                    i as int,
                                    k as int,
                                );
                            }
                            assert forall|q: int|
                                (i as int + 1) * size <= q < n_subsets
                                    * size implies #[trigger] matrix@[q] == false by {
                                lemma_row_col(
                                    (i as int + 1),
                                    size as int,
                                    i as int,
                                    k as int,
                                    i as int,
                                    k as int,
                                );
                                assert(i as int * size + k < (i as int + 1) * size);
                                assert(q != i as int * size + k);
                            }
                            assert forall|c: int|
                                0 <= c < size implies matrix@[i as int * size + c] == fam[
                                i as int
                            ].take(j as int + 1).contains(names@[c]@) by {
                                lemma_row_col(
                                    n_subsets as int,
                                    size as int,
                                    i as int,
                                    c,
                                    i as int,
                                    k as int,
                                );
                                let taken = fam[i as int].take(j as int + 1);
                                if c == k {
                                    assert(taken[j as int] == names@[k as int]@);
                                    assert(taken.contains(names@[c]@));
                                } else {
                                    assert(names@[c]@ != names@[k as int]@);
                                    if taken.contains(names@[c]@) {
                                        let p = choose|p: int|
                                            0 <= p < taken.len() && taken[p] == names@[c]@;
                                        if p == j {
                                            assert(names@[c]@ == name@);
                                            assert(false);
                                        }
                                        assert(fam[i as int].take(j as int)[p] == names@[c]@);
                                        assert(fam[i as int].take(j as int).contains(
                                            names@[c]@,
                                        ));
                                    }
                                    if fam[i as int].take(j as int).contains(names@[c]@) {
                                        let p = choose|p: int|
                                            0 <= p < j && fam[i as int].take(j as int)[p]
                                                == names@[c]@;
                                        assert(taken[p] == names@[c]@);
                                        assert(taken.contains(names@[c]@));
                                    }
                                }
                            }
                        }
                    },
                    None => {
                        proof {
                            assert(false);
                        }
                    },
                }
            }
            proof {
                assert(fam[i as int].take(n_elems as int) =~= fam[i as int]);
            }
        }

        SetModel { names, matrix, size_set: size, size_subsets: n_subsets, min_subset, max_subset }
    }

    /// The names covered by `chosen` among the element indices below `n`,
    /// in index order.
    pub open spec fn union_below_names(self, chosen: Seq<usize>, n: int) -> Seq<Seq<char>>
        decreases n,
    {
        if n <= 0 {
            Seq::empty()
        } else {
            self.union_below_names(chosen, n - 1) + if self.covers(chosen, n - 1) {
                seq![self.names@[n - 1]@]
            } else {
                Seq::empty()
            }
        }
    }

    /// The element names covered by the union of `chosen`, in index order.
    pub open spec fn union_names(self, chosen: Seq<usize>) -> Seq<Seq<char>> {
        self.union_below_names(chosen, self.size_set as int)
    }

    /// The union holds one name per covered element index.
    pub proof fn lemma_union_below_len(self, chosen: Seq<usize>, n: int)
        ensures
            self.union_below_names(chosen, n).len() == self.covered_below(chosen, n),
            0 <= self.covered_below(chosen, n) <= if n <= 0 {
                0int
            } else {
                n
            },
        decreases n,
    {
        if n > 0 {
            self.lemma_union_below_len(chosen, n - 1);
        }
    }

    /// The union never repeats a name, and every name it holds belongs to
    /// an element index it covers.
    pub proof fn lemma_union_below_distinct(self, chosen: Seq<usize>, n: int)
        requires
            self.wf(),
            n <= self.size_set,
        ensures
            forall|a: int, b: int|
                0 <= a < b < self.union_below_names(chosen, n).len()
                    ==> self.union_below_names(chosen, n)[a] != self.union_below_names(
                    chosen,
                    n,
                )[b],
            forall|x: Seq<char>|
                #[trigger] self.union_below_names(chosen, n).contains(x) ==> exists|p: int|
                    0 <= p < n && x == self.names@[p]@ && self.covers(chosen, p),
        decreases n,
    {
        if n > 0 {
            self.lemma_union_below_distinct(chosen, n - 1);
            let prev = self.union_below_names(chosen, n - 1);
            let cur = self.union_below_names(chosen, n);
            if self.covers(chosen, n - 1) {
                assert(cur =~= prev.push(self.names@[n - 1]@));
                assert forall|a: int, b: int|
                    0 <= a < b < cur.len() implies cur[a] != cur[b] by {
                    if b == cur.len() - 1 {
                        assert(prev.contains(prev[a]));
                        let p = choose|p: int|
                            0 <= p < n - 1 && prev[a] == self.names@[p]@ && self.covers(
                                chosen,
                                p,
                            );
                        assert(self.names@[p]@ != self.names@[n - 1]@);
                    }
                }
                assert forall|x: Seq<char>| #[trigger] cur.contains(x) implies exists|p: int|
                    0 <= p < n && x == self.names@[p]@ && self.covers(chosen, p) by {
                    let t = choose|t: int| 0 <= t < cur.len() && cur[t] == x;
                    if t < cur.len() - 1 {
                        assert(prev[t] == x);
                        assert(prev.contains(x));
                    } else {
                        assert(x == self.names@[n - 1]@);
                    }
                }
            } else {
                assert(cur =~= prev);
            }
        } else {
            assert(forall|x: Seq<char>| !self.union_below_names(chosen, n).contains(x));
        }
    }

    /// Whether any subset in `chosen` contains the element with index `j`.
    pub(crate) fn covers_exec(&self, chosen: &Vec<usize>, j: usize) -> (r: bool)
        requires
            self.wf(),
            self.valid_indices(chosen@),
            j < self.size_set,
        ensures
            r == self.covers(chosen@, j as int),
    {
        let n = self.size_set;
        let mut k: usize = 0;
        while k < chosen.len()
            invariant
                self.wf(),
                self.valid_indices(chosen@),
                j < n,
                n == self.size_set,
                k <= chosen@.len(),
                forall|t: int| 0 <= t < k ==> !self.cell(#[trigger] chosen@[t] as int, j as int),
            decreases chosen@.len() - k,
        {
            let s = chosen[k];
            proof {
                lemma_row_col(
                    self.size_subsets as int,
                    n as int,
                    s as int,
                    j as int,
                    s as int,
                    j as int,
                );
            }
            if self.matrix[s * n + j] {
                return true;
            }
            k += 1;
        }
        false
    }

    /// The sorted element indices covered by one subset, or the offending
    /// index when it is not below the subset count.
    pub fn get_elements_in_subset(&self, subset_index: usize) -> (r: Result<
        Vec<usize>,
        IndexOutOfRange,
    >)
        requires
            self.wf(),
        ensures
            match r {
                Ok(v) => {
                    &&& subset_index < self.size_subsets
                    &&& forall|t: int|
                        0 <= t < v@.len() ==> (#[trigger] v@[t]) < self.size_set && self.cell(
                            subset_index as int,
                            v@[t] as int,
                        )
                    &&& forall|j: int|
                        0 <= j < self.size_set && self.cell(subset_index as int, j)
                            ==> v@.contains(j as usize)
                    &&& forall|a: int, b: int| 0 <= a < b < v@.len() ==> v@[a] < v@[b]
                },
                Err(e) => {
                    &&& subset_index >= self.size_subsets
                    &&& e.index == subset_index
                    &&& e.bound == self.size_subsets
                },
            },
    {
        if subset_index >= self.size_subsets {
            return Err(IndexOutOfRange { index: subset_index, bound: self.size_subsets });
        }
        let n = self.size_set;
        let mut v: Vec<usize> = Vec::new();
        for j in 0..n
            invariant
                self.wf(),
                subset_index < self.size_subsets,
                n == self.size_set,
                forall|t: int|
                    0 <= t < v@.len() ==> (#[trigger] v@[t]) < j && self.cell(
                        subset_index as int,
                        v@[t] as int,
                    ),
                forall|jj: int|
                    0 <= jj < j && self.cell(subset_index as int, jj) ==> v@.contains(
                        jj as usize,
                    ),
                forall|a: int, b: int| 0 <= a < b < v@.len() ==> v@[a] < v@[b],
        {
            proof {
                lemma_row_col(
                    self.size_subsets as int,
                    n as int,
                    subset_index as int,
                    j as int,
                    subset_index as int,
                    j as int,
                );
            }
            if self.matrix[subset_index * n + j] {
                let ghost old_v = v@;
                v.push(j);
                proof {
                    assert forall|jj: int|
                        0 <= jj < j + 1 && self.cell(subset_index as int, jj) implies v@.contains(
                        jj as usize,
                    ) by {
                        if jj < j {
                            assert(old_v.contains(jj as usize));
                            let t = choose|t: int| 0 <= t < old_v.len() && old_v[t] == jj as usize;
                            assert(v@[t] == jj as usize);
                        } else {
                            assert(v@[v@.len() - 1] == jj as usize);
                        }
                    }
                }
            }
        }
        Ok(v)
    }

    /// The element names covered by the union of the given subsets, in
    /// element index order, or the first offending index when one is not
    /// below the subset count.
    pub fn union_subset(&self, subsets: &Vec<usize>) -> (r: Result<Vec<String>, IndexOutOfRange>)
        requires
            self.wf(),
        ensures
            match r {
                Ok(u) => {
                    &&& self.valid_indices(subsets@)
                    &&& views_of(u@) == self.union_names(subsets@)
                    &&& u@.len() == self.covered_count(subsets@)
                    &&& u@.len() <= self.size_set
                    &&& forall|a: int, b: int| 0 <= a < b < u@.len() ==> u@[a]@ != u@[b]@
                },
                Err(e) => {
                    &&& !self.valid_indices(subsets@)
                    &&& subsets@.contains(e.index)
                    &&& e.index >= self.size_subsets
                    &&& e.bound == self.size_subsets
                    &&& forall|k: int|
                        #[trigger] self.first_invalid_at(subsets@, k) ==> e.index == subsets@[k]
                },
            },
    {
        let mut k: usize = 0;
        while k < subsets.len()
            invariant
                k <= subsets@.len(),
                forall|t: int| 0 <= t < k ==> (#[trigger] subsets@[t]) < self.size_subsets,
            decreases subsets@.len() - k,
        {
            if subsets[k] >= self.size_subsets {
                proof {
                    assert(self.first_invalid_at(subsets@, k as int));
                    assert forall|kk: int|
                        #[trigger] self.first_invalid_at(subsets@, kk) implies subsets@[kk]
                        == subsets@[k as int] by {
                        if kk < k as int {
                            assert(subsets@[kk] < self.size_subsets);
                        } else if kk > k as int {
                            assert(subsets@[k as int] < self.size_subsets);
                        }
                    }
                }
                return Err(IndexOutOfRange { index: subsets[k], bound: self.size_subsets });
            }
            k += 1;
        }
        let n = self.size_set;
        let mut u: Vec<String> = Vec::new();
        proof {
            assert(views_of(u@) =~= self.union_below_names(subsets@, 0));
        }
        for j in 0..n
            invariant
                self.wf(),
                self.valid_indices(subsets@),
                n == self.size_set,
                views_of(u@) == self.union_below_names(subsets@, j as int),
        {
            if self.covers_exec(subsets, j) {
                let name = self.names[j].clone();
                u.push(name);
                proof {
                    assert(views_of(u@) =~= self.union_below_names(subsets@, j as int).push(
                        self.names@[j as int]@,
                    ));
                    assert(self.union_below_names(subsets@, j as int + 1) =~= self
                        .union_below_names(subsets@, j as int).push(self.names@[j as int]@));
                }
            } else {
                proof {
                    assert(self.union_below_names(subsets@, j as int + 1) =~= self
                        .union_below_names(subsets@, j as int));
                }
            }
        }
        proof {
            self.lemma_union_below_len(subsets@, self.size_set as int);
            self.lemma_union_below_distinct(subsets@, self.size_set as int);
            assert forall|a: int, b: int| 0 <= a < b < u@.len() implies u@[a]@ != u@[b]@ by {
                assert(views_of(u@)[a] == u@[a]@);
                assert(views_of(u@)[b] == u@[b]@);
            }
        }
        Ok(u)
    }

    /// Whether the given subsets cover the whole universe; an out-of-range
    /// index makes the answer `false`.
    pub fn is_cover_valid(&self, subsets: &Vec<usize>) -> (r: bool)
        requires
            self.wf(),
        ensures
            r == (self.valid_indices(subsets@) && self.covered_count(subsets@)
                == self.size_set),
    {
        match self.union_subset(subsets) {
            Ok(u) => u.len() == self.size_set,
            Err(_) => false,
        }
    }

    /// Whether subsets `a` and `b` share no element.
    pub open spec fn disjoint_rows(self, a: int, b: int) -> bool {
        forall|j: int| 0 <= j < self.size_set ==> !(self.cell(a, j) && #[trigger] self.cell(b, j))
    }

    /// Whether the member at position `t` of the family is disjoint from
    /// every other member of the family.
    pub open spec fn fully_disjoint_in(self, fam: Seq<usize>, t: int) -> bool {
        forall|u: int|
            0 <= u < fam.len() && u != t ==> self.disjoint_rows(
                fam[t] as int,
                #[trigger] fam[u] as int,
            )
    }

    /// The distinct subset indices in the family that are disjoint from
    /// every other member of the family.
    pub open spec fn fully_disjoint_set(self, fam: Seq<usize>) -> Set<usize> {
        Set::new(
            |x: usize|
                exists|t: int|
                    0 <= t < fam.len() && #[trigger] fam[t] == x && self.fully_disjoint_in(
                        fam,
                        t,
                    ),
        )
    }

    /// Whether two subsets share no element.
    fn rows_disjoint(&self, a: usize, b: usize) -> (r: bool)
        requires
            self.wf(),
            a < self.size_subsets,
            b < self.size_subsets,
        ensures
            r == self.disjoint_rows(a as int, b as int),
    {
        let n = self.size_set;
        for j in 0..n
            invariant
                self.wf(),
                a < self.size_subsets,
                b < self.size_subsets,
                n == self.size_set,
                forall|jj: int|
                    0 <= jj < j ==> !(self.cell(a as int, jj) && #[trigger] self.cell(
                        b as int,
                        jj,
                    )),
        {
            proof {
                lemma_row_col(self.size_subsets as int, n as int, a as int, j as int, a as int, j as int);
                lemma_row_col(self.size_subsets as int, n as int, b as int, j as int, b as int, j as int);
            }
            if self.matrix[a * n + j] && self.matrix[b * n + j] {
                proof {
                    assert(self.cell(a as int, j as int) && self.cell(b as int, j as int));
                    assert(!self.disjoint_rows(a as int, b as int));
                }
                return false;
            }
        }
        true
    }

    /// Counts the distinct subset indices in the family that are disjoint
    /// from every other member of the family; a family of fewer than two
    /// members counts none.
    pub fn count_disjoint_subsets(&self, subsets: &Vec<usize>) -> (r: usize)
        requires
            self.wf(),
            self.valid_indices(subsets@),
        ensures
            r == if subsets@.len() < 2 {
                0int
            } else {
                self.fully_disjoint_set(subsets@).len() as int
            },
    {
        if subsets.len() < 2 {
            return 0;
        }
        let mut found: Vec<usize> = Vec::new();
        let n_fam = subsets.len();
        for t in 0..n_fam
            invariant
                self.wf(),
                self.valid_indices(subsets@),
                n_fam == subsets@.len(),
                found@.no_duplicates(),
                forall|x: usize|
                    #[trigger] found@.contains(x) <==> exists|tt: int|
                        0 <= tt < t && #[trigger] subsets@[tt] == x && self.fully_disjoint_in(
                            subsets@,
                            tt,
                        ),
        {
            let mut ok = true;
            let mut u: usize = 0;
            while u < n_fam
                invariant
                    self.wf(),
                    self.valid_indices(subsets@),
                    n_fam == subsets@.len(),
                    t < n_fam,
                    u <= n_fam,
                    ok ==> forall|uu: int|
                        0 <= uu < u && uu != t ==> self.disjoint_rows(
                            subsets@[t as int] as int,
                            #[trigger] subsets@[uu] as int,
                        ),
                    !ok ==> !self.fully_disjoint_in(subsets@, t as int),
                decreases n_fam - u,
            {
                if u != t {
                    if !self.rows_disjoint(subsets[t], subsets[u]) {
                        ok = false;
                        proof {
                            assert(!self.fully_disjoint_in(subsets@, t as int));
                        }
                    }
                }
                u += 1;
            }
            if ok {
                let x = subsets[t];
                if !contains_usize(&found, x) {
                    let ghost old_found = found@;
                    found.push(x);
                    proof {
                        assert forall|a: int, b: int|
                            0 <= a < b < found@.len() implies found@[a] != found@[b] by {
                            if b == found@.len() - 1 {
                                if found@[a] == x {
                                    assert(old_found[a] == x);
                                    assert(old_found.contains(x));
                                }
                            }
                        }
                        assert forall|y: usize| #[trigger] found@.contains(y) implies (
                        exists|tt: int|
                            0 <= tt < t + 1 && #[trigger] subsets@[tt] == y
                                && self.fully_disjoint_in(subsets@, tt)) by {
                            let k = choose|k: int| 0 <= k < found@.len() && found@[k] == y;
                            if k < found@.len() - 1 {
                                assert(old_found[k] == y);
                                assert(old_found.contains(y));
                            } else {
                                assert(subsets@[t as int] == y);
                            }
                        }
                        assert forall|y: usize|
                            (exists|tt: int|
                                0 <= tt < t + 1 && #[trigger] subsets@[tt] == y
                                    && self.fully_disjoint_in(
                                    subsets@,
                                    tt,
                                )) implies found@.contains(y) by {
                            let tt = choose|tt: int|
                                0 <= tt < t + 1 && subsets@[tt] == y && self.fully_disjoint_in(
                                    subsets@,
                                    tt,
                                );
                            if tt < t {
                                assert(old_found.contains(y));
                                let k = choose|k: int|
                                    0 <= k < old_found.len() && old_found[k] == y;
                                assert(found@[k] == y);
                            } else {
                                assert(found@[found@.len() - 1] == y);
                            }
                        }
                    }
                } else {
                    proof {
                        assert forall|y: usize|
                            (exists|tt: int|
                                0 <= tt < t + 1 && #[trigger] subsets@[tt] == y
                                    && self.fully_disjoint_in(
                                    subsets@,
                                    tt,
                                )) implies found@.contains(y) by {
                            let tt = choose|tt: int|
                                0 <= tt < t + 1 && subsets@[tt] == y && self.fully_disjoint_in(
                                    subsets@,
                                    tt,
                                );
                            if tt == t {
                                assert(y == x);
                            }
                        }
                    }
                }
            }
        }
        proof {
            assert(found@.to_set() =~= self.fully_disjoint_set(subsets@));
            found@.unique_seq_to_set();
        }
        found.len()
    }

    /// The element names of the universe, sorted lexicographically.
    pub fn get_elements(&self) -> (r: Vec<String>)
        requires
            self.wf(),
        ensures
            r@.len() == self.names@.len(),
            views_of(r@).to_multiset() == views_of(self.names@).to_multiset(),
            forall|a: int, b: int| 0 <= a < b < r@.len() ==> lex_le(r@[a]@, r@[b]@),
    {
        let n = self.names.len();
        let mut r: Vec<String> = Vec::new();
        proof {
            assert(views_of(r@) =~= views_of(self.names@.take(0)));
            views_of(r@).to_multiset_ensures();
        }
        for i in 0..n
            invariant
                self.wf(),
                n == self.names@.len(),
                views_of(r@).to_multiset() == views_of(self.names@.take(i as int)).to_multiset(),
                r@.len() == i,
                forall|a: int, b: int| 0 <= a < b < r@.len() ==> lex_le(r@[a]@, r@[b]@),
        {
            let name = self.names[i].clone();
            let mut p: usize = 0;
            while p < r.len() && str_le(r[p].as_str(), name.as_str())
                invariant
                    p <= r@.len(),
                    name@ == self.names@[i as int]@,
                    forall|t: int| 0 <= t < p ==> lex_le(r@[t]@, name@),
                    forall|a: int, b: int| 0 <= a < b < r@.len() ==> lex_le(r@[a]@, r@[b]@),
                decreases r@.len() - p,
            {
                p += 1;
            }
            proof {
                if p < r@.len() {
                    lemma_lex_total(r@[p as int]@, name@);
                }
            }
            let ghost old_r = r@;
            let ghost pos = p as int;
            r.insert(p, name);
            proof {
                // order: entries below the insertion point stay below the
                // new one, and the new one stays below everything after it
                assert forall|a: int, b: int|
                    0 <= a < b < r@.len() implies lex_le(r@[a]@, r@[b]@) by {
                    if a < pos && b == pos {
                    } else if a == pos && b > pos {
                        if pos < old_r.len() && b - 1 > pos {
                            lemma_lex_trans(r@[a]@, old_r[pos]@, old_r[b - 1]@);
                        }
                    } else if a < pos && b > pos {
                        assert(r@[a]@ == old_r[a]@);
                        assert(r@[b]@ == old_r[b - 1]@);
                    }
                }
                // contents: one copy of the new name joins the multiset
                let vs = views_of(old_r);
                let ins = views_of(r@);
                assert(ins =~= vs.insert(pos, name@));
                assert(ins.remove(pos) =~= vs);
                ins.to_multiset_ensures();
                vs.to_multiset_ensures();
                assert(ins.remove(pos).to_multiset() =~= ins.to_multiset().remove(ins[pos]));
                assert(ins[pos] == name@);
                assert(ins.contains(name@));
                assert(ins.to_multiset().count(name@) > 0);
                assert(ins.to_multiset() =~= vs.to_multiset().insert(name@));
                assert(self.names@.take(i as int + 1) =~= self.names@.take(i as int).push(
                    self.names@[i as int],
                ));
                assert(views_of(self.names@.take(i as int + 1)) =~= views_of(
                    self.names@.take(i as int),
                ).push(name@));
                views_of(self.names@.take(i as int)).to_multiset_ensures();
            }
        }
        proof {
            assert(self.names@.take(n as int) =~= self.names@);
        }
        r
    }

    /// In a family of two or more members where every pair of members
    /// shares an element, no member is disjoint from all the others, so
    /// the count of fully disjoint members is zero.
    pub proof fn lemma_overlapping_family_has_none(self, fam: Seq<usize>)
        requires
            fam.len() >= 2,
            forall|t: int, u: int|
                #![trigger fam[t], fam[u]]
                0 <= t < fam.len() && 0 <= u < fam.len() && t != u ==> !self.disjoint_rows(
                    fam[t] as int,
                    fam[u] as int,
                ),
        ensures
            self.fully_disjoint_set(fam).len() == 0,
    {
        assert forall|x: usize| !(#[trigger] self.fully_disjoint_set(fam).contains(x)) by {
            if self.fully_disjoint_set(fam).contains(x) {
                let t = choose|t: int|
                    0 <= t < fam.len() && fam[t] == x && self.fully_disjoint_in(fam, t);
                let u = if t == 0 {
                    1int
                } else {
                    0int
                };
                assert(!self.disjoint_rows(fam[t] as int, fam[u] as int));
                assert(self.disjoint_rows(fam[t] as int, fam[u] as int));
            }
        }
        assert(self.fully_disjoint_set(fam) =~= Set::<usize>::empty());
    }

    /// The number of elements in the universe.
    pub fn get_size_set(&self) -> (r: usize)
        ensures
            r == self.size_set,
    {
        self.size_set
    }

    /// The number of subsets in the family.
    pub fn get_size_subsets(&self) -> (r: usize)
        ensures
            r == self.size_subsets,
    {
        self.size_subsets
    }

    /// The largest subset cardinality seen at construction.
    pub fn get_max_subset(&self) -> (r: usize)
        ensures
            r == self.max_subset,
    {
        self.max_subset
    }
}

} // verus!
