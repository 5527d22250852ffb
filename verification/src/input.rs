//! Input-list utilities: chunking work for a fixed pool of workers, naming
//! the files to process, and deciding what to do with one input path.
use vstd::prelude::*;
use vstd::string::StrSliceExecFns;

verus! {

/// One input archive: its bare file name and its full path.
pub struct FileData {
    pub filename: String,
    pub file: String,
}

/// The concatenation of a sequence of chunks.
pub open spec fn flat_of<T>(s: Seq<Seq<T>>) -> Seq<T>
    decreases s.len(),
{
    if s.len() == 0 {
        Seq::empty()
    } else {
        flat_of(s.drop_last()) + s.last()
    }
}

proof fn lemma_flat_of_empty<T>()
    ensures
        flat_of(Seq::<Seq<T>>::empty()) == Seq::<T>::empty(),
{
}

/// The chunk size used to split `len` items over `n` workers: the ceiling of
/// their quotient.
pub open spec fn chunk_size_of(len: nat, n: nat) -> nat
    recommends
        n > 0,
{
    if len % n == 0 {
        len / n
    } else {
        len / n + 1
    }
}

/// Splits a work list into at most `n` contiguous chunks of equal size (the
/// last chunk may be shorter), keeping every item in order.  With no workers
/// or no work the whole list is one chunk.
pub fn split_vec<T>(vec: Vec<T>, n: usize) -> (r: Vec<Vec<T>>)
    ensures
        flat_of(r@.map_values(|v: Vec<T>| v@)) == vec@,
        (n == 0 || vec@.len() == 0) ==> r@.len() == 1 && r@[0]@ == vec@,
        n > 0 && vec@.len() > 0 ==> {
            let cs = chunk_size_of(vec@.len(), n as nat);
            &&& r@.len() >= 1
            &&& (forall|i: int| 0 <= i < r@.len() ==> 0 < #[trigger] r@[i]@.len() <= cs)
            &&& (forall|i: int| 0 <= i < r@.len() - 1 ==> #[trigger] r@[i]@.len() == cs)
        },
{
    let ghost whole = vec@;
    if n == 0 || vec.is_empty() {
        let mut r: Vec<Vec<T>> = Vec::new();
        r.push(vec);
        proof {
            let f = |v: Vec<T>| v@;
            assert(whole == vec@);
            assert(r@.map_values(f).len() == 1);
            assert(r@.map_values(f)[0] == r@[0]@);
            assert(r@[0]@ == whole);
            assert(r@.map_values(f).drop_last() =~= Seq::<Seq<T>>::empty());
            lemma_flat_of_empty::<T>();
            assert(flat_of(r@.map_values(f)) == flat_of(r@.map_values(f).drop_last())
                + r@.map_values(f).last());
            assert(flat_of(r@.map_values(f)) =~= whole);
        }
        return r;
    }
    let len: usize = vec.len();
    let mut chunk_size: usize = len / n;
    if len % n != 0 {
        proof {
            if n == 1 {
                vstd::arithmetic::div_mod::lemma_fundamental_div_mod(len as int, 1int);
            }
            vstd::arithmetic::div_mod::lemma_div_decreases(len as int, n as int);
        }
        chunk_size += 1;
    }
    proof {
        assert(chunk_size == chunk_size_of(whole.len(), n as nat));
        if len % n == 0 && len / n == 0 {
            vstd::arithmetic::div_mod::lemma_fundamental_div_mod(len as int, n as int);
            assert(len as int == n as int * (len as int / n as int) + len as int % n as int);
            assert(n as int * 0 == 0) by (nonlinear_arith);
            assert(false);
        }
        assert(chunk_size > 0);
    }
    let mut rest = vec;
    let mut r: Vec<Vec<T>> = Vec::new();
    proof {
        assert(flat_of(r@.map_values(|v: Vec<T>| v@)) =~= Seq::<T>::empty());
        assert(flat_of(r@.map_values(|v: Vec<T>| v@)) + rest@ =~= whole);
    }
    while rest.len() > 0
        invariant
            whole == vec@,
            n > 0,
            chunk_size == chunk_size_of(whole.len(), n as nat),
            chunk_size > 0,
            flat_of(r@.map_values(|v: Vec<T>| v@)) + rest@ == whole,
            forall|i: int| 0 <= i < r@.len() ==> #[trigger] r@[i]@.len() == chunk_size,
        decreases rest@.len(),
    {
        let take: usize = if chunk_size < rest.len() {
            chunk_size
        } else {
            rest.len()
        };
        let ghost prev_rest = rest@;
        let tail = rest.split_off(take);
        let ghost prev = r@;
        r.push(rest);
        rest = tail;
        proof {
            let f = |v: Vec<T>| v@;
            assert(r@.map_values(f).drop_last() =~= prev.map_values(f));
            assert(r@.map_values(f).last() == prev_rest.subrange(0, take as int));
            assert(flat_of(r@.map_values(f)) + rest@ =~= whole);
        }
        if rest.len() > 0 {
            proof {
                assert(r@.last()@.len() == chunk_size);
                assert forall|i: int| 0 <= i < r@.len() implies #[trigger] r@[i]@.len()
                    == chunk_size by {
                    if i < prev.len() {
                        assert(prev[i] == r@[i]);
                    }
                }
            }
        } else {
            proof {
                let f = |v: Vec<T>| v@;
                assert(whole == vec@);
                assert(flat_of(r@.map_values(f)) =~= whole);
                assert forall|i: int| 0 <= i < r@.len() - 1 implies #[trigger] r@[i]@.len()
                    == chunk_size by {
                    assert(prev[i] == r@[i]);
                }
                assert(r@.last()@.len() == take);
                assert(0 < take <= chunk_size);
                assert forall|i: int| 0 <= i < r@.len() implies 0 < #[trigger] r@[i]@.len()
                    <= chunk_size by {
                    if i < r@.len() - 1 {
                        assert(r@[i]@.len() == chunk_size);
                    }
                }
            }
            return r;
        }
    }
    proof {
        let f = |v: Vec<T>| v@;
        assert(whole == vec@);
        assert(flat_of(r@.map_values(f)) =~= whole);
        assert forall|i: int| 0 <= i < r@.map_values(f).len() implies #[trigger] r@.map_values(
            f,
        )[i].len() == chunk_size by {
            assert(r@.map_values(f)[i] == r@[i]@);
        }
        lemma_flat_len_bound(r@.map_values(f), chunk_size as nat);
        if r@.len() == 0 {
            assert(whole.len() == 0);
        }
    }
    r
}

/// The concatenation of chunks of bounded size is itself bounded.
proof fn lemma_flat_len_bound<T>(s: Seq<Seq<T>>, cs: nat)
    requires
        forall|i: int| 0 <= i < s.len() ==> #[trigger] s[i].len() == cs,
    ensures
        flat_of(s).len() == s.len() * cs,
    decreases s.len(),
{
    if s.len() > 0 {
        assert forall|i: int| 0 <= i < s.drop_last().len() implies #[trigger] s.drop_last()[i].len()
            == cs by {
            assert(s[i].len() == cs);
        }
        lemma_flat_len_bound(s.drop_last(), cs);
        assert(flat_of(s).len() == (s.len() - 1) * cs + cs);
        assert((s.len() - 1) * cs + cs == s.len() * cs) by (nonlinear_arith)
            requires
                s.len() >= 1,
        ;
    } else {
        assert(s.len() * cs == 0) by (nonlinear_arith)
            requires
                s.len() == 0,
        ;
    }
}

/// What the tools do with one input path, decided from what the filesystem
/// reports of it.
#[derive(Clone, Copy, Debug, PartialEq, Eq, Structural)]
pub enum PathAction {
    /// The path does not exist: warn and continue with the other inputs.
    MissingWarn,
    /// A directory while walking is enabled: search it for archives.
    WalkDirectory,
    /// A directory while walking is disabled: pass over it silently.
    SkipDirectory,
    /// A plain file: process it as one archive.
    TakeFile,
    /// Anything else is rejected outright.
    Reject,
}

/// The decision for one input path.
pub open spec fn path_action_spec(exists: bool, is_dir: bool, is_file: bool, walk: bool) -> PathAction {
    if !exists {
        PathAction::MissingWarn
    } else if walk && is_dir {
        PathAction::WalkDirectory
    } else if !walk && is_dir {
        PathAction::SkipDirectory
    } else if is_file {
        PathAction::TakeFile
    } else {
        PathAction::Reject
    }
}

/// Decides what to do with one input path from what the filesystem reports.
pub fn path_action(exists: bool, is_dir: bool, is_file: bool, walk: bool) -> (r: PathAction)
    ensures
        r == path_action_spec(exists, is_dir, is_file, walk),
{
    if !exists {
        PathAction::MissingWarn
    } else if walk && is_dir {
        PathAction::WalkDirectory
    } else if !walk && is_dir {
        PathAction::SkipDirectory
    } else if is_file {
        PathAction::TakeFile
    } else {
        PathAction::Reject
    }
}

/// A file extension that names an archive, compared without regard to ASCII
/// case.
pub open spec fn is_epub_ext(s: Seq<char>) -> bool {
    s.len() == 4 && (s[0] == 'e' || s[0] == 'E') && (s[1] == 'p' || s[1] == 'P') && (s[2] == 'u'
        || s[2] == 'U') && (s[3] == 'b' || s[3] == 'B')
}

/// Runtime test for [`is_epub_ext`].
pub fn epub_extension(s: &str) -> (r: bool)
    ensures
        r == is_epub_ext(s@),
{
    if s.unicode_len() != 4 {
        return false;
    }
    let c0 = s.get_char(0);
    let c1 = s.get_char(1);
    let c2 = s.get_char(2);
    let c3 = s.get_char(3);
    (c0 == 'e' || c0 == 'E') && (c1 == 'p' || c1 == 'P') && (c2 == 'u' || c2 == 'U') && (c3 == 'b'
        || c3 == 'B')
}

} // verus!
