//! What is decided about a repository from the plain answers of the store.

use vstd::prelude::*;
use vstd::string::StringSliceAdditionalSpecFns;
use crate::error::RepoError;

verus! {

/// What the repository is in the middle of.
#[derive(Clone, Copy, Debug, PartialEq, Eq, Structural, Hash)]
pub enum RepositoryState {
    /// Nothing.
    Clean,
    /// A merge.
    Merge,
    /// A revert.
    Revert,
    /// A revert of several commits.
    RevertSequence,
    /// A cherry-pick.
    CherryPick,
    /// A cherry-pick of several commits.
    CherryPickSequence,
    /// A bisection.
    Bisect,
    /// A rebase.
    Rebase,
    /// An interactive rebase.
    RebaseInteractive,
    /// A rebase by merging.
    RebaseMerge,
    /// The application of a mailbox.
    ApplyMailbox,
    /// The application of a mailbox, or a rebase.
    ApplyMailboxOrRebase,
}

/// Whether the state is one of a rebase.
pub open spec fn rebasing(state: RepositoryState) -> bool {
    state is Rebase || state is RebaseInteractive || state is RebaseMerge
}

/// Detect if an interactive rebase has started but not completed.
pub fn is_rebase_underway(state: RepositoryState) -> (r: Result<bool, RepoError>)
    ensures
        r matches Ok(b) && b == rebasing(state),
{
    match state {
        RepositoryState::Rebase | RepositoryState::RebaseInteractive | RepositoryState::RebaseMerge => Ok(
            true,
        ),
        // Possibly some of these states should also be treated as `true`?
        RepositoryState::Clean
        | RepositoryState::Merge
        | RepositoryState::Revert
        | RepositoryState::RevertSequence
        | RepositoryState::CherryPick
        | RepositoryState::CherryPickSequence
        | RepositoryState::Bisect
        | RepositoryState::ApplyMailbox
        | RepositoryState::ApplyMailboxOrRebase => Ok(false),
    }
}

/// The name of the operation that a state belongs to.
pub open spec fn operation_name(state: RepositoryState) -> Option<Seq<char>> {
    match state {
        RepositoryState::Clean | RepositoryState::Bisect => None,
        RepositoryState::Merge => Some("merge"@),
        RepositoryState::Revert | RepositoryState::RevertSequence => Some("revert"@),
        RepositoryState::CherryPick | RepositoryState::CherryPickSequence => Some("cherry-pick"@),
        RepositoryState::Rebase | RepositoryState::RebaseInteractive | RepositoryState::RebaseMerge => Some(
            "rebase"@,
        ),
        RepositoryState::ApplyMailbox | RepositoryState::ApplyMailboxOrRebase => Some("am"@),
    }
}

/// Get the type of the multi-step operation (such as `rebase` or
/// `cherry-pick`) which is underway; none if there is no such operation.
pub fn get_current_operation_type(state: RepositoryState) -> (r: Option<&'static str>)
    ensures
        match r {
            Some(name) => operation_name(state) == Some(name@),
            None => operation_name(state) is None,
        },
{
    match state {
        RepositoryState::Clean | RepositoryState::Bisect => None,
        RepositoryState::Merge => Some("merge"),
        RepositoryState::Revert | RepositoryState::RevertSequence => Some("revert"),
        RepositoryState::CherryPick | RepositoryState::CherryPickSequence => Some("cherry-pick"),
        RepositoryState::Rebase | RepositoryState::RebaseInteractive | RepositoryState::RebaseMerge => Some(
            "rebase",
        ),
        RepositoryState::ApplyMailbox | RepositoryState::ApplyMailboxOrRebase => Some("am"),
    }
}

/// Whether a revision is one that the store's library gets wrong: it ends
/// in `@` and is longer than one byte.
pub fn is_unsupported_revparse_spec(spec: &str) -> (r: bool)
    ensures
        r == (spec@.len() > 0 && spec@.last() == '@' && spec.spec_bytes().len() as usize > 1),
{
    let n = spec.unicode_len();
    if n == 0 {
        return false;
    }
    let last = spec.get_char(n - 1);
    assert(last == spec@.last());
    let bytes = spec.len();
    last == '@' && bytes > 1
}

/// The remote to push a branch to: the one set for pushing, else the one
/// set for the branch, else none.
pub fn choose_push_remote(push_remote: Option<String>, remote: Option<String>) -> (r: Option<String>)
    ensures
        r == if push_remote is Some {
            push_remote
        } else {
            remote
        },
{
    if let Some(remote_name) = push_remote {
        Some(remote_name)
    } else if let Some(remote_name) = remote {
        Some(remote_name)
    } else {
        None
    }
}

/// The part of the bytes before the first zero byte, and the part after
/// it. Without a zero byte the first part is everything.
pub open spec fn cut_at_zero(bytes: Seq<u8>) -> (Seq<u8>, Seq<u8>)
    decreases bytes.len(),
{
    if bytes.len() == 0 {
        (seq![], seq![])
    } else if bytes[0] == 0 {
        (seq![], bytes.drop_first())
    } else {
        let (line, rest) = cut_at_zero(bytes.drop_first());
        (seq![bytes[0]] + line, rest)
    }
}

/// What is left after a cut is no longer than what was cut.
pub proof fn lemma_cut_shrinks(bytes: Seq<u8>)
    ensures
        cut_at_zero(bytes).1.len() <= bytes.len(),
        bytes.len() > 0 ==> cut_at_zero(bytes).1.len() < bytes.len(),
        cut_at_zero(bytes).0.len() + cut_at_zero(bytes).1.len() <= bytes.len(),
    decreases bytes.len(),
{
    if bytes.len() > 0 && bytes[0] != 0 {
        lemma_cut_shrinks(bytes.drop_first());
    }
}

/// The entries of the status output: the output is a run of entries that
/// each end in a zero byte. An entry that starts with `1` or `u` is one
/// such piece; one that starts with `2` is two pieces with the zero byte
/// between them. Any other start is an error, which names the byte.
pub open spec fn status_lines(output: Seq<u8>) -> Result<Seq<Seq<u8>>, u8>
    decreases output.len(),
{
    if output.len() == 0 {
        Ok(seq![])
    } else if output[0] == 0x31 || output[0] == 0x75 {
        let (line, rest) = cut_at_zero(output);
        if rest.len() < output.len() {
            match status_lines(rest) {
                Ok(lines) => Ok(seq![line] + lines),
                Err(prefix) => Err(prefix),
            }
        } else {
            Ok(seq![])
        }
    } else if output[0] == 0x32 {
        let (first, rest) = cut_at_zero(output);
        let (second, rest) = cut_at_zero(rest);
        if rest.len() < output.len() {
            match status_lines(rest) {
                Ok(lines) => Ok(seq![first + seq![0u8] + second] + lines),
                Err(prefix) => Err(prefix),
            }
        } else {
            Ok(seq![])
        }
    } else {
        Err(output[0])
    }
}

/// The values of a run of byte strings.
pub open spec fn lines_of(lines: Seq<Vec<u8>>) -> Seq<Seq<u8>> {
    Seq::new(lines.len(), |i: int| lines[i]@)
}

/// Reads up to the next zero byte.
fn read_piece(output: &Vec<u8>, from: usize) -> (r: (Vec<u8>, usize))
    requires
        from <= output@.len(),
    ensures
        from <= r.1 <= output@.len(),
        r.0@ == cut_at_zero(output@.skip(from as int)).0,
        output@.skip(r.1 as int) == cut_at_zero(output@.skip(from as int)).1,
{
    let mut line: Vec<u8> = Vec::new();
    let mut i: usize = from;
    let ghost start = output@.skip(from as int);
    while i < output.len() && output[i] != 0
        invariant
            from <= i <= output@.len(),
            start == output@.skip(from as int),
            cut_at_zero(start) == (line@ + cut_at_zero(output@.skip(i as int)).0, cut_at_zero(
                output@.skip(i as int),
            ).1),
        decreases output@.len() - i,
    {
        let ghost here = output@.skip(i as int);
        assert(here[0] == output@[i as int]);
        assert(here.drop_first() =~= output@.skip(i + 1));
        let ghost before = line@;
        line.push(output[i]);
        assert(line@ + cut_at_zero(output@.skip(i + 1)).0 =~= before + (seq![here[0]] + cut_at_zero(
            here.drop_first(),
        ).0));
        i += 1;
    }
    let ghost here = output@.skip(i as int);
    if i < output.len() {
        assert(here[0] == output@[i as int]);
        assert(here.drop_first() =~= output@.skip(i + 1));
        assert(line@ + Seq::<u8>::empty() =~= line@);
        (line, i + 1)
    } else {
        assert(here.len() == 0);
        assert(line@ + Seq::<u8>::empty() =~= line@);
        assert(output@.skip(i as int) =~= Seq::<u8>::empty());
        (line, i)
    }
}

/// Cuts the output of the status command into its entries.
pub fn split_status_output(output: &Vec<u8>) -> (r: Result<Vec<Vec<u8>>, RepoError>)
    ensures
        match r {
            Ok(lines) => status_lines(output@) == Ok::<Seq<Seq<u8>>, u8>(lines_of(lines@)),
            Err(RepoError::UnknownStatusLinePrefix { prefix }) => status_lines(output@) == Err::<
                Seq<Seq<u8>>,
                u8,
            >(prefix),
            Err(_) => false,
        },
{
    let mut statuses: Vec<Vec<u8>> = Vec::new();
    let mut i: usize = 0;
    assert(output@.skip(0) =~= output@);
    while i < output.len()
        invariant
            i <= output@.len(),
            status_lines(output@) == match status_lines(output@.skip(i as int)) {
                Ok(lines) => Ok::<Seq<Seq<u8>>, u8>(lines_of(statuses@) + lines),
                Err(prefix) => Err(prefix),
            },
        decreases output@.len() - i,
    {
        let ghost here = output@.skip(i as int);
        let ghost before = lines_of(statuses@);
        assert(here[0] == output@[i as int]);
        let line_prefix = output[i];
        proof {
            lemma_cut_shrinks(here);
            lemma_cut_shrinks(cut_at_zero(here).1);
        }
        if line_prefix == 0x31 || line_prefix == 0x75 {
            let (line, next) = read_piece(output, i);
            let ghost piece = line@;
            statuses.push(line);
            proof {
                assert(lines_of(statuses@) =~= before.push(piece));
                match status_lines(output@.skip(next as int)) {
                    Ok(lines) => {
                        assert(lines_of(statuses@) + lines =~= before + (seq![piece] + lines));
                    },
                    Err(_) => {},
                }
            }
            i = next;
        } else if line_prefix == 0x32 {
            let (mut line, middle) = read_piece(output, i);
            let (second, next) = read_piece(output, middle);
            let ghost first = line@;
            line.push(0);
            let mut k: usize = 0;
            while k < second.len()
                invariant
                    k <= second@.len(),
                    line@ == first + seq![0u8] + second@.take(k as int),
                decreases second@.len() - k,
            {
                line.push(second[k]);
                assert(second@.take(k + 1) =~= second@.take(k as int).push(second@[k as int]));
                k += 1;
            }
            assert(second@.take(k as int) =~= second@);
            let ghost piece = line@;
            statuses.push(line);
            proof {
                assert(lines_of(statuses@) =~= before.push(piece));
                match status_lines(output@.skip(next as int)) {
                    Ok(lines) => {
                        assert(lines_of(statuses@) + lines =~= before + (seq![piece] + lines));
                    },
                    Err(_) => {},
                }
            }
            i = next;
        } else {
            return Err(RepoError::UnknownStatusLinePrefix { prefix: line_prefix });
        }
    }
    assert(output@.skip(i as int).len() == 0);
    assert(lines_of(statuses@) + Seq::<Seq<u8>>::empty() =~= lines_of(statuses@));
    Ok(statuses)
}


/// The order of texts: at the first place where they differ, the one with
/// the character of the smaller code comes first; a text comes before
/// every longer text that starts with it.
pub open spec fn text_lt(a: Seq<char>, b: Seq<char>) -> bool
    decreases a.len(),
{
    if b.len() == 0 {
        false
    } else if a.len() == 0 {
        true
    } else if a[0] != b[0] {
        (a[0] as u32) < (b[0] as u32)
    } else {
        text_lt(a.drop_first(), b.drop_first())
    }
}

/// The values of a run of strings.
pub open spec fn texts_of(names: Seq<String>) -> Seq<Seq<char>> {
    Seq::new(names.len(), |i: int| names[i]@)
}

/// Sorts the names with `itertools::Itertools::sorted`, which sorts in
/// ascending order: the result holds the same names as often, and none
/// stands before a smaller one.
#[verifier::external_body]
fn sort_names(names: Vec<String>) -> (r: Vec<String>)
    ensures
        texts_of(r@).to_multiset() == texts_of(names@).to_multiset(),
        forall|i: int, j: int| 0 <= i < j < r@.len() ==> !text_lt(#[trigger] r@[j]@, #[trigger] r@[i]@),
{
    itertools::Itertools::sorted(names.into_iter()).collect()
}

/// The names that could be decoded, in order.
pub open spec fn decoded_names(remotes: Seq<Option<String>>) -> Seq<Seq<char>>
    decreases remotes.len(),
{
    if remotes.len() == 0 {
        seq![]
    } else {
        let before = decoded_names(remotes.drop_last());
        match remotes.last() {
            Some(name) => before.push(name@),
            None => before,
        }
    }
}

/// Get a list of all remote names, sorted: those that could be decoded,
/// each as often as it was given.
pub fn get_all_remote_names(remotes: Vec<Option<String>>) -> (r: Vec<String>)
    ensures
        texts_of(r@).to_multiset() == decoded_names(remotes@).to_multiset(),
        forall|i: int, j: int| 0 <= i < j < r@.len() ==> !text_lt(#[trigger] r@[j]@, #[trigger] r@[i]@),
{
    let mut names: Vec<String> = Vec::new();
    let mut i: usize = 0;
    assert(texts_of(names@) =~= decoded_names(remotes@.take(0)));
    while i < remotes.len()
        invariant
            i <= remotes@.len(),
            texts_of(names@) == decoded_names(remotes@.take(i as int)),
        decreases remotes@.len() - i,
    {
        proof {
            let next = remotes@.take(i + 1);
            assert(next.drop_last() =~= remotes@.take(i as int));
            assert(next.last() == remotes@[i as int]);
        }
        let ghost before = texts_of(names@);
        match &remotes[i] {
            Some(remote_name) => {
                names.push(remote_name.clone());
                assert(texts_of(names@) =~= before.push(remote_name@));
            },
            None => {},
        }
        i += 1;
    }
    assert(remotes@.take(i as int) =~= remotes@);
    sort_names(names)
}

} // verus!
