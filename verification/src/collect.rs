//! The collector: moving every file of a source tree into one flat
//! destination directory, renaming around name collisions.
//!
//! A file name is a byte string. The destination directory is modeled by
//! [`DirListing`], the set of names it currently holds. When a name is
//! already taken, alternatives are generated by inserting `_1`, `_2`, ...
//! before the extension until a free name is found; [`resolved_for`] pins
//! the chosen name as the candidate with the smallest such counter.

use vstd::prelude::*;
use vstd::pervasive::VecAdditionalExecFns;

use crate::names::{SEP, DOT, UNDERSCORE, dec_digits, lemma_dec_digits, dec_of, find_last_dot, last_dot, bytes_eq, clone_bytes};

verus! {

/// The names directly inside one directory, each occurring once.
pub struct DirListing {
    names: Vec<Vec<u8>>,
}

/// The element views of a vector of byte strings.
proof fn lemma_names_view(v: Vec<Vec<u8>>)
    ensures
        v.deep_view().len() == v@.len(),
        forall|i: int| 0 <= i < v@.len() ==> v.deep_view()[i] == v@[i]@,
{
    assert forall|i: int| 0 <= i < v@.len() implies v.deep_view()[i] == v@[i]@ by {
        assert(v@[i].deep_view() =~= v@[i]@);
    }
}

impl View for DirListing {
    type V = Seq<Seq<u8>>;

    closed spec fn view(&self) -> Seq<Seq<u8>> {
        self.names.deep_view()
    }
}

impl DirListing {
    /// All names in the listing are distinct.
    pub open spec fn wf(&self) -> bool {
        forall|i: int, j: int| 0 <= i < j < self@.len() ==> self@[i] != self@[j]
    }

    pub fn new() -> (r: DirListing)
        ensures
            r@ == Seq::<Seq<u8>>::empty(),
            r.wf(),
    {
        let r = DirListing { names: Vec::new() };
        proof {
            assert(r@ =~= Seq::<Seq<u8>>::empty());
        }
        r
    }

    pub fn len(&self) -> (n: usize)
        ensures
            n == self@.len(),
    {
        proof {
            lemma_names_view(self.names);
        }
        self.names.len()
    }

    pub fn name_at(&self, i: usize) -> (r: &Vec<u8>)
        requires
            i < self@.len(),
        ensures
            r@ == self@[i as int],
    {
        proof {
            lemma_names_view(self.names);
        }
        &self.names[i]
    }

    pub fn contains_name(&self, n: &Vec<u8>) -> (r: bool)
        ensures
            r == self@.contains(n@),
    {
        proof {
            lemma_names_view(self.names);
        }
        let mut i: usize = 0;
        while i < self.names.len()
            invariant
                i <= self.names@.len(),
                self@.len() == self.names@.len(),
                forall|j: int| 0 <= j < self.names@.len() ==> self@[j] == self.names@[j]@,
                forall|j: int| 0 <= j < i ==> self@[j] != n@,
            decreases self.names@.len() - i,
        {
            if bytes_eq(&self.names[i], n) {
                proof {
                    assert(self@[i as int] == n@);
                }
                return true;
            }
            i += 1;
        }
        proof {
            if self@.contains(n@) {
                let j = choose|j: int| 0 <= j < self@.len() && self@[j] == n@;
                assert(self@[j] != n@);
            }
        }
        false
    }

    fn push_name(&mut self, n: Vec<u8>)
        ensures
            final(self)@ == old(self)@.push(n@),
    {
        proof {
            lemma_names_view(self.names);
        }
        let ghost nv = n@;
        self.names.push(n);
        proof {
            lemma_names_view(self.names);
            assert(self@ =~= old(self)@.push(nv));
        }
    }

    /// Replace the name at slot `i`.
    pub fn set_name(&mut self, i: usize, n: Vec<u8>)
        requires
            i < old(self)@.len(),
        ensures
            final(self)@ == old(self)@.update(i as int, n@),
    {
        proof {
            lemma_names_view(self.names);
        }
        let ghost nv = n@;
        self.names.set(i, n);
        proof {
            lemma_names_view(self.names);
            assert(self@ =~= old(self)@.update(i as int, nv));
        }
    }

    /// Record a directory entry; a duplicate is refused so that the listing
    /// stays well formed.
    pub fn add_name(&mut self, n: Vec<u8>) -> (added: bool)
        ensures
            added == !old(self)@.contains(n@),
            added ==> final(self)@ == old(self)@.push(n@),
            !added ==> final(self)@ == old(self)@,
            old(self).wf() ==> final(self).wf(),
    {
        if self.contains_name(&n) {
            false
        } else {
            let ghost nv = n@;
            self.push_name(n);
            proof {
                if old(self).wf() {
                    assert forall|i: int, j: int| 0 <= i < j < self@.len() implies self@[i]
                        != self@[j] by {
                        if j == self@.len() - 1 {
                            assert(!old(self)@.contains(nv));
                            assert(old(self)@[i] != nv);
                        }
                    }
                }
            }
            true
        }
    }
}

/// The stem of a name: everything before the last dot, unless the dot is
/// absent or leads the name, in which case the whole name is the stem.
pub open spec fn stem_of(name: Seq<u8>) -> Seq<u8> {
    let i = last_dot(name);
    if i <= 0 {
        name
    } else {
        name.take(i)
    }
}

/// The extension of a name: everything after the last dot, unless the dot
/// is absent or leads the name.
pub open spec fn ext_of(name: Seq<u8>) -> Option<Seq<u8>> {
    let i = last_dot(name);
    if i <= 0 {
        None
    } else {
        Some(name.skip(i + 1))
    }
}

/// The `c`-th name tried for a file called `name`: the name itself for
/// `c == 0`, and the stem with `_c` inserted before the extension after.
pub open spec fn nth_candidate(name: Seq<u8>, c: nat) -> Seq<u8> {
    if c == 0 {
        name
    } else {
        match ext_of(name) {
            Some(e) => stem_of(name) + seq![UNDERSCORE] + dec_digits(c) + seq![DOT] + e,
            None => stem_of(name) + seq![UNDERSCORE] + dec_digits(c),
        }
    }
}

/// Every candidate below `c` is already present in `existing`.
pub open spec fn taken_below(name: Seq<u8>, existing: Seq<Seq<u8>>, c: nat) -> bool {
    forall|d: nat| d < c ==> existing.contains(#[trigger] nth_candidate(name, d))
}

/// `c` is the smallest counter whose candidate is absent from `existing`.
pub open spec fn is_resolution(name: Seq<u8>, existing: Seq<Seq<u8>>, c: nat) -> bool {
    &&& !existing.contains(nth_candidate(name, c))
    &&& taken_below(name, existing, c)
}

/// `target` is the name a file called `name` moves to when `existing` are
/// the names already present: the candidate with the smallest free counter.
pub open spec fn resolved_for(name: Seq<u8>, existing: Seq<Seq<u8>>, target: Seq<u8>) -> bool {
    exists|c: nat| is_resolution(name, existing, c) && target == nth_candidate(name, c)
}

/// Distinct counters give distinct candidate names.
pub proof fn lemma_candidate_injective(name: Seq<u8>, c1: nat, c2: nat)
    requires
        nth_candidate(name, c1) == nth_candidate(name, c2),
    ensures
        c1 == c2,
{
    lemma_dec_digits(c1);
    lemma_dec_digits(c2);
    if c1 == 0 && c2 != 0 {
        lemma_candidate_lengths(name, c2);
    } else if c1 != 0 && c2 == 0 {
        lemma_candidate_lengths(name, c1);
    } else if c1 != 0 && c2 != 0 {
        let a = stem_of(name) + seq![UNDERSCORE];
        let l1 = dec_digits(c1).len() as int;
        let l2 = dec_digits(c2).len() as int;
        match ext_of(name) {
            Some(e) => {
                assert(nth_candidate(name, c1) =~= a + dec_digits(c1) + (seq![DOT] + e));
                assert(nth_candidate(name, c2) =~= a + dec_digits(c2) + (seq![DOT] + e));
            },
            None => {
                assert(nth_candidate(name, c1) =~= a + dec_digits(c1) + Seq::<u8>::empty());
                assert(nth_candidate(name, c2) =~= a + dec_digits(c2) + Seq::<u8>::empty());
            },
        }
        assert(l1 == l2);
        assert(dec_digits(c1) =~= nth_candidate(name, c1).subrange(a.len() as int, a.len() + l1));
        assert(dec_digits(c2) =~= nth_candidate(name, c2).subrange(a.len() as int, a.len() + l2));
        assert(dec_digits(c1) == dec_digits(c2));
    }
}

/// A candidate with a positive counter is strictly longer than the name.
proof fn lemma_candidate_lengths(name: Seq<u8>, c: nat)
    requires
        c != 0,
    ensures
        nth_candidate(name, c).len() > name.len(),
{
    lemma_dec_digits(c);
    crate::names::lemma_last_dot(name);
    match ext_of(name) {
        Some(e) => {
            let i = last_dot(name);
            assert(name =~= name.take(i) + seq![name[i]] + name.skip(i + 1));
        },
        None => {},
    }
}

/// Among any `existing.len() + 1` consecutive counters starting at `lo`,
/// at least one candidate name is absent from `existing`.
pub proof fn lemma_fresh_candidate_exists(name: Seq<u8>, s: Set<Seq<u8>>, lo: nat)
    requires
        s.finite(),
    ensures
        exists|c: nat|
            lo <= c < lo + s.len() + 1 && !s.contains(#[trigger] nth_candidate(name, c)),
    decreases s.len(),
{
    broadcast use vstd::set::group_set_axioms;

    if !s.contains(nth_candidate(name, lo)) {
        assert(lo <= lo < lo + s.len() + 1 && !s.contains(nth_candidate(name, lo)));
    } else {
        let s2 = s.remove(nth_candidate(name, lo));
        assert(s2.len() == s.len() - 1);
        lemma_fresh_candidate_exists(name, s2, lo + 1);
        let c = choose|c: nat|
            lo + 1 <= c < lo + 1 + s2.len() + 1 && !s2.contains(#[trigger] nth_candidate(name, c));
        if nth_candidate(name, c) == nth_candidate(name, lo) {
            lemma_candidate_injective(name, c, lo);
        }
        assert(!s.contains(nth_candidate(name, c)));
    }
}

/// Append `src[from..to]` to `dst`.
fn extend_range(dst: &mut Vec<u8>, src: &Vec<u8>, from: usize, to: usize)
    requires
        from <= to <= src@.len(),
    ensures
        final(dst)@ == old(dst)@ + src@.subrange(from as int, to as int),
{
    let mut i: usize = from;
    while i < to
        invariant
            from <= i <= to <= src@.len(),
            dst@ == old(dst)@ + src@.subrange(from as int, i as int),
        decreases to - i,
    {
        dst.push(src[i]);
        i += 1;
        proof {
            assert(dst@ =~= old(dst)@ + src@.subrange(from as int, i as int));
        }
    }
}

/// The candidate name for counter `c >= 1`: the stem, an underscore, the
/// decimal counter, and the extension (if any) after a dot.
pub fn build_candidate(name: &Vec<u8>, c: usize) -> (r: Vec<u8>)
    requires
        c >= 1,
    ensures
        r@ == nth_candidate(name@, c as nat),
{
    proof {
        crate::names::lemma_last_dot(name@);
    }
    let mut r: Vec<u8> = Vec::new();
    let digits = dec_of(c as u64);
    match find_last_dot(name) {
        Some(i) if i > 0 => {
            let n = name.len();
            proof {
                assert(i < n);
            }
            extend_range(&mut r, name, 0, i);
            r.push(UNDERSCORE);
            extend_range(&mut r, &digits, 0, digits.len());
            r.push(DOT);
            extend_range(&mut r, name, i + 1, n);
            proof {
                assert(digits@.subrange(0, digits@.len() as int) =~= digits@);
                assert(r@ =~= stem_of(name@) + seq![UNDERSCORE] + dec_digits(c as nat)
                    + seq![DOT] + ext_of(name@).unwrap());
            }
        },
        _ => {
            extend_range(&mut r, name, 0, name.len());
            r.push(UNDERSCORE);
            extend_range(&mut r, &digits, 0, digits.len());
            proof {
                assert(digits@.subrange(0, digits@.len() as int) =~= digits@);
                assert(name@.subrange(0, name@.len() as int) =~= name@);
                assert(r@ =~= stem_of(name@) + seq![UNDERSCORE] + dec_digits(c as nat));
            }
        },
    }
    r
}

/// Move one file called `file_name` into `dest`: the name itself if it is
/// free, else the candidate with the smallest free counter. The chosen
/// name is added to `dest` and returned.
pub fn move_file(file_name: &Vec<u8>, dest: &mut DirListing) -> (target: Vec<u8>)
    requires
        old(dest).wf(),
        old(dest)@.len() < usize::MAX,
    ensures
        final(dest).wf(),
        final(dest)@ == old(dest)@.push(target@),
        resolved_for(file_name@, old(dest)@, target@),
        !old(dest)@.contains(target@),
{
    let ghost existing = dest@;
    if !dest.contains_name(file_name) {
        let target = clone_bytes(file_name);
        let added = dest.add_name(clone_bytes(file_name));
        proof {
            assert(added);
            assert(target@ == nth_candidate(file_name@, 0));
            assert(is_resolution(file_name@, existing, 0));
        }
        return target;
    }
    proof {
        existing.lemma_cardinality_of_set();
        vstd::seq_lib::seq_to_set_is_finite(existing);
        lemma_fresh_candidate_exists(file_name@, existing.to_set(), 1);
    }
    let ghost b = choose|c: nat|
        1 <= c < 1 + existing.to_set().len() + 1 && !existing.to_set().contains(
            #[trigger] nth_candidate(file_name@, c),
        );
    proof {
        assert(!existing.contains(nth_candidate(file_name@, b)));
        assert(b <= existing.len() + 1);
    }
    let mut c: usize = 1;
    loop
        invariant
            dest.wf(),
            dest@ == existing,
            existing == old(dest)@,
            existing.len() < usize::MAX,
            1 <= c as nat <= b,
            b <= existing.len() + 1,
            !existing.contains(nth_candidate(file_name@, b)),
            taken_below(file_name@, existing, c as nat),
        decreases b - c as nat,
    {
        let cand = build_candidate(file_name, c);
        if !dest.contains_name(&cand) {
            let target = clone_bytes(&cand);
            let added = dest.add_name(cand);
            proof {
                assert(added);
                assert(is_resolution(file_name@, existing, c as nat));
            }
            return target;
        }
        proof {
            assert(c as nat != b);
            assert forall|d: nat| d < c as nat + 1 implies existing.contains(
                #[trigger] nth_candidate(file_name@, d),
            ) by {
                if d < c as nat {
                    assert(existing.contains(nth_candidate(file_name@, d)));
                }
            }
        }
        c += 1;
    }
}

/// A source tree: a file with its base name, or a directory of entries.
pub enum FsTree {
    File(Vec<u8>),
    Dir(Vec<FsTree>),
}

/// The base names of the files of `t`, depth first, in entry order.
pub open spec fn files_of(t: FsTree) -> Seq<Seq<u8>>
    decreases t,
{
    match t {
        FsTree::File(n) => seq![n@],
        FsTree::Dir(entries) => files_of_seq(entries@),
    }
}

/// The base names of the files of a row of entries, depth first.
pub open spec fn files_of_seq(ts: Seq<FsTree>) -> Seq<Seq<u8>>
    decreases ts,
{
    if ts.len() == 0 {
        Seq::empty()
    } else {
        files_of(ts[0]) + files_of_seq(ts.subrange(1, ts.len() as int))
    }
}

/// Splitting a row of entries splits its files.
pub proof fn lemma_files_of_seq_split(ts: Seq<FsTree>, k: int)
    requires
        0 <= k <= ts.len(),
    ensures
        files_of_seq(ts) == files_of_seq(ts.take(k)) + files_of_seq(ts.skip(k)),
    decreases k,
{
    if k == 0 {
        assert(ts.take(0) =~= Seq::<FsTree>::empty());
        assert(ts.skip(0) =~= ts);
        assert(files_of_seq(ts) =~= files_of_seq(ts.take(0)) + files_of_seq(ts.skip(0)));
    } else {
        let rest = ts.subrange(1, ts.len() as int);
        lemma_files_of_seq_split(rest, k - 1);
        assert(rest.take(k - 1) =~= ts.take(k).subrange(1, k));
        assert(rest.skip(k - 1) =~= ts.skip(k));
        assert(files_of_seq(ts.take(k)) == files_of(ts.take(k)[0]) + files_of_seq(
            ts.take(k).subrange(1, k),
        ));
        assert(files_of_seq(ts) =~= files_of_seq(ts.take(k)) + files_of_seq(ts.skip(k)));
    }
}

/// One more entry contributes its files at the end.
pub proof fn lemma_files_of_seq_step(ts: Seq<FsTree>, i: int)
    requires
        0 <= i < ts.len(),
    ensures
        files_of_seq(ts.take(i + 1)) == files_of_seq(ts.take(i)) + files_of(ts[i]),
{
    lemma_files_of_seq_split(ts.take(i + 1), i);
    assert(ts.take(i + 1).take(i) =~= ts.take(i));
    let tail = ts.take(i + 1).skip(i);
    assert(tail =~= seq![ts[i]]);
    assert(tail.subrange(1, tail.len() as int) =~= Seq::<FsTree>::empty());
    assert(files_of_seq(Seq::<FsTree>::empty()) == Seq::<Seq<u8>>::empty());
    assert(files_of_seq(tail) == files_of(ts[i]) + files_of_seq(Seq::<FsTree>::empty()));
    assert(files_of_seq(tail) =~= files_of(ts[i]));
}

/// `log` records, file by file, where the files named in `srcs` went when
/// the destination already held `initial`: each entry is the collision-free
/// resolution of the corresponding source name against everything present
/// at the time of that file's move.
pub open spec fn collected(srcs: Seq<Seq<u8>>, initial: Seq<Seq<u8>>, log: Seq<Seq<u8>>) -> bool {
    &&& log.len() == srcs.len()
    &&& forall|i: int|
        0 <= i < log.len() ==> resolved_for(srcs[i], initial + log.take(i), #[trigger] log[i])
}

/// Two collections in a row make one collection of the combined sources.
pub proof fn lemma_collected_extend(
    srcs1: Seq<Seq<u8>>,
    srcs2: Seq<Seq<u8>>,
    initial: Seq<Seq<u8>>,
    log1: Seq<Seq<u8>>,
    log2: Seq<Seq<u8>>,
)
    requires
        collected(srcs1, initial, log1),
        collected(srcs2, initial + log1, log2),
    ensures
        collected(srcs1 + srcs2, initial, log1 + log2),
{
    let srcs = srcs1 + srcs2;
    let log = log1 + log2;
    assert forall|i: int| 0 <= i < log.len() implies resolved_for(
        srcs[i],
        initial + log.take(i),
        #[trigger] log[i],
    ) by {
        if i < log1.len() {
            assert(log.take(i) =~= log1.take(i));
            assert(log[i] == log1[i]);
            assert(srcs[i] == srcs1[i]);
        } else {
            let j = i - log1.len();
            assert(log[i] == log2[j]);
            assert(srcs[i] == srcs2[j]);
            assert(initial + log.take(i) =~= (initial + log1) + log2.take(j));
        }
    }
}

/// Walk `tree` depth first and move every file into `dest`, renaming around
/// collisions; the returned log holds the destination name of each file, in
/// traversal order.
pub fn walk_directories(tree: &FsTree, dest: &mut DirListing) -> (log: Vec<Vec<u8>>)
    requires
        old(dest).wf(),
        old(dest)@.len() + files_of(*tree).len() < usize::MAX,
    ensures
        final(dest).wf(),
        final(dest)@ == old(dest)@ + log.deep_view(),
        collected(files_of(*tree), old(dest)@, log.deep_view()),
    decreases *tree,
{
    match tree {
        FsTree::File(name) => {
            let target = move_file(name, dest);
            let ghost tv = target@;
            let mut log: Vec<Vec<u8>> = Vec::new();
            log.push(target);
            proof {
                lemma_names_view(log);
                assert(log.deep_view() =~= seq![tv]);
                assert(dest@ =~= old(dest)@ + log.deep_view());
                assert(log.deep_view().take(0) =~= Seq::<Seq<u8>>::empty());
                assert(old(dest)@ + log.deep_view().take(0) =~= old(dest)@);
                assert(files_of(*tree) == seq![name@]);
            }
            log
        },
        FsTree::Dir(entries) => {
            let mut log: Vec<Vec<u8>> = Vec::new();
            let ghost d0 = dest@;
            proof {
                lemma_names_view(log);
                assert(log.deep_view() =~= Seq::<Seq<u8>>::empty());
                assert(d0 + log.deep_view() =~= d0);
                assert(entries@.take(0) =~= Seq::<FsTree>::empty());
            }
            let mut idx: usize = 0;
            while idx < entries.len()
                invariant
                    idx <= entries@.len(),
                    dest.wf(),
                    *tree == FsTree::Dir(*entries),
                    files_of(*tree) == files_of_seq(entries@),
                    d0.len() + files_of_seq(entries@).len() < usize::MAX,
                    dest@ == d0 + log.deep_view(),
                    collected(files_of_seq(entries@.take(idx as int)), d0, log.deep_view()),
                decreases entries@.len() - idx,
            {
                proof {
                    lemma_files_of_seq_step(entries@, idx as int);
                    lemma_files_of_seq_split(entries@, idx as int + 1);
                    assert(files_of_seq(entries@.take(idx as int + 1)).len() <= files_of_seq(
                        entries@,
                    ).len());
                    assert(dest@.len() + files_of(entries@[idx as int]).len() < usize::MAX);
                    assert(decreases_to!(*tree => entries@[idx as int]));
                }
                let ghost pre = dest@;
                let ghost log_pre = log.deep_view();
                let mut sub = walk_directories(&entries[idx], dest);
                let ghost subdv = sub.deep_view();
                log.append(&mut sub);
                proof {
                    lemma_names_view(log);
                    assert(log.deep_view() =~= log_pre + subdv);
                    assert(dest@ =~= d0 + log.deep_view());
                    lemma_collected_extend(
                        files_of_seq(entries@.take(idx as int)),
                        files_of(entries@[idx as int]),
                        d0,
                        log_pre,
                        subdv,
                    );
                    lemma_files_of_seq_step(entries@, idx as int);
                }
                idx += 1;
            }
            proof {
                assert(entries@.take(idx as int) =~= entries@);
            }
            log
        },
    }
}

/// Move every file reachable under `tree` into the flat directory `dest`.
/// Afterwards every moved file is present in `dest` under its logged name
/// (nothing is overwritten), the logged names are pairwise distinct, and
/// each is the collision resolution with the smallest free counter against
/// the names present at the time of its move.
pub fn move_files_to_current_dir(tree: &FsTree, dest: &mut DirListing) -> (log: Vec<Vec<u8>>)
    requires
        old(dest).wf(),
        old(dest)@.len() + files_of(*tree).len() < usize::MAX,
    ensures
        final(dest).wf(),
        final(dest)@ == old(dest)@ + log.deep_view(),
        collected(files_of(*tree), old(dest)@, log.deep_view()),
        forall|i: int|
            0 <= i < log.deep_view().len() ==> final(dest)@.contains(#[trigger] log.deep_view()[i]),
        forall|i: int, j: int|
            0 <= i < j < log.deep_view().len() ==> log.deep_view()[i] != log.deep_view()[j],
{
    let log = walk_directories(tree, dest);
    proof {
        let dv = log.deep_view();
        let n = old(dest)@.len() as int;
        assert forall|i: int| 0 <= i < dv.len() implies dest@.contains(#[trigger] dv[i]) by {
            assert(dest@[n + i] == dv[i]);
        }
        assert forall|i: int, j: int| 0 <= i < j < dv.len() implies dv[i] != dv[j] by {
            assert(dest@[n + i] == dv[i]);
            assert(dest@[n + j] == dv[j]);
        }
    }
    log
}

} // verus!
