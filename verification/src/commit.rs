//! Commits, signatures and timestamps as plain values.

use vstd::prelude::*;
use crate::oid::NonZeroOid;
use crate::path::TreePath;
use crate::tree::{entries_differ, entry_at, files, nodes_differ, Tree};

verus! {

/// A timestamp as used in a [`Signature`].
#[derive(Clone, Copy, Debug, PartialEq, Eq, Structural, Hash)]
pub struct Time {
    /// Seconds since the epoch.
    pub seconds: i64,
    /// The offset of the time zone, in minutes.
    pub offset_minutes: i32,
}

/// The order of two timestamps: by the seconds, then by the offset.
pub open spec fn time_lt(a: Time, b: Time) -> bool {
    a.seconds < b.seconds || (a.seconds == b.seconds && a.offset_minutes < b.offset_minutes)
}

impl Time {
    /// Whether this timestamp comes before `other`.
    pub fn is_before(&self, other: &Time) -> (r: bool)
        ensures
            r == time_lt(*self, *other),
    {
        self.seconds < other.seconds || (self.seconds == other.seconds && self.offset_minutes
            < other.offset_minutes)
    }

    /// The seconds since the epoch, where the time is not before it.
    pub fn to_unix_seconds(&self) -> (r: Option<u64>)
        ensures
            self.seconds >= 0 ==> r == Some(self.seconds as u64),
            self.seconds < 0 ==> r is None,
    {
        if self.seconds >= 0 {
            Some(self.seconds as u64)
        } else {
            None
        }
    }
}

/// Who made a commit, and when.
#[derive(Debug, PartialEq, Eq, Hash)]
pub struct Signature {
    /// The name, where it could be decoded.
    pub name: Option<String>,
    /// The e-mail address, where it could be decoded.
    pub email: Option<String>,
    /// When the signature was made.
    pub time: Time,
}

/// The mathematical value of a [`Signature`].
pub struct SignatureView {
    /// The name.
    pub name: Option<Seq<char>>,
    /// The e-mail address.
    pub email: Option<Seq<char>>,
    /// The time.
    pub time: Time,
}

/// The characters of a string that may be missing.
pub open spec fn string_opt_view(s: Option<String>) -> Option<Seq<char>> {
    match s {
        Some(s) => Some(s@),
        None => None,
    }
}

impl View for Signature {
    type V = SignatureView;

    open spec fn view(&self) -> SignatureView {
        SignatureView {
            name: string_opt_view(self.name),
            email: string_opt_view(self.email),
            time: self.time,
        }
    }
}

/// The signature that synthetic commits carry.
pub open spec fn automated_signature() -> SignatureView {
    SignatureView {
        name: Some("git-branchless"@),
        email: Some("git-branchless@example.com"@),
        time: Time { seconds: 0, offset_minutes: 0 },
    }
}

/// Why a signature could not be given a new time.
#[derive(Clone, Copy, Debug, PartialEq, Eq, Structural, Hash)]
pub enum SignatureError {
    /// The time does not fit the range of a timestamp.
    IntegerConvert,
    /// The name of the signature could not be decoded.
    DecodeName,
    /// The e-mail address of the signature could not be decoded.
    DecodeEmail,
}

/// How name and address are written together: the name, a space and the
/// address in angle brackets, or the one of the two that is there.
pub open spec fn describe_signature(name: Option<Seq<char>>, email: Option<Seq<char>>) -> Option<
    Seq<char>,
> {
    match (name, email) {
        (Some(n), Some(e)) => Some(n + seq![' ', '<'] + e + seq!['>']),
        (Some(n), None) => Some(n),
        (None, Some(e)) => Some(seq!['<'] + e + seq!['>']),
        (None, None) => None,
    }
}

impl Clone for Signature {
    fn clone(&self) -> (r: Signature)
        ensures
            r@ == self@,
    {
        Signature {
            name: match &self.name {
                Some(s) => Some(s.clone()),
                None => None,
            },
            email: match &self.email {
                Some(s) => Some(s.clone()),
                None => None,
            },
            time: self.time,
        }
    }
}

impl Signature {
    /// The signature of commits that this library makes up: a fixed name and
    /// address, at the epoch.
    pub fn automated() -> (r: Signature)
        ensures
            r@ == automated_signature(),
    {
        Signature {
            name: Some(String::from_str("git-branchless")),
            email: Some(String::from_str("git-branchless@example.com")),
            time: Time { seconds: 0, offset_minutes: 0 },
        }
    }

    /// The signature with its time set to `now_seconds` after the epoch; the
    /// offset stays.
    pub fn update_timestamp(self, now_seconds: u64) -> (r: Result<Signature, SignatureError>)
        ensures
            r == Err::<Signature, SignatureError>(SignatureError::IntegerConvert) <==> now_seconds
                > i64::MAX,
            r == Err::<Signature, SignatureError>(SignatureError::DecodeName) <==> now_seconds
                <= i64::MAX && self.name is None,
            r == Err::<Signature, SignatureError>(SignatureError::DecodeEmail) <==> now_seconds
                <= i64::MAX && self.name is Some && self.email is None,
            r matches Ok(s) ==> s@ == (SignatureView {
                time: Time { seconds: now_seconds as i64, offset_minutes: self.time.offset_minutes },
                ..self@
            }),
    {
        if now_seconds > 0x7fff_ffff_ffff_ffff {
            return Err(SignatureError::IntegerConvert);
        }
        let seconds: i64 = now_seconds as i64;
        let offset_minutes: i32 = self.time.offset_minutes;
        let name = match self.name {
            Some(name) => name,
            None => {
                return Err(SignatureError::DecodeName);
            },
        };
        let email = match self.email {
            Some(email) => email,
            None => {
                return Err(SignatureError::DecodeEmail);
            },
        };
        Ok(Signature { name: Some(name), email: Some(email), time: Time { seconds, offset_minutes } })
    }

    /// When the signature was made.
    pub fn get_time(&self) -> (r: Time)
        ensures
            r == self.time,
    {
        self.time
    }

    /// The name, where it could be decoded.
    pub fn get_name(&self) -> (r: Option<&str>)
        ensures
            match r {
                Some(s) => self@.name == Some(s@),
                None => self@.name is None,
            },
    {
        match &self.name {
            Some(s) => Some(s.as_str()),
            None => None,
        }
    }

    /// The e-mail address, where it could be decoded.
    pub fn get_email(&self) -> (r: Option<&str>)
        ensures
            match r {
                Some(s) => self@.email == Some(s@),
                None => self@.email is None,
            },
    {
        match &self.email {
            Some(s) => Some(s.as_str()),
            None => None,
        }
    }

    /// Name and address in one string, as far as they are there.
    pub fn friendly_describe(&self) -> (r: Option<String>)
        ensures
            string_opt_view(r) == describe_signature(self@.name, self@.email),
    {
        proof {
            reveal_strlit("<");
            reveal_strlit(">");
            reveal_strlit(" <");
        }
        match (&self.name, &self.email) {
            (Some(name), Some(email)) => {
                let mut out = name.clone();
                out.append(" <");
                out.append(email.as_str());
                out.append(">");
                assert(out@ =~= name@ + seq![' ', '<'] + email@ + seq!['>']);
                Some(out)
            },
            (Some(name), None) => Some(name.clone()),
            (None, Some(email)) => {
                let mut out = String::from_str("<");
                out.append(email.as_str());
                out.append(">");
                assert(out@ =~= seq!['<'] + email@ + seq!['>']);
                Some(out)
            },
            (None, None) => None,
        }
    }
}

/// A parent of a commit: its identifier and its tree.
#[derive(Debug, PartialEq, Eq, Hash)]
pub struct ParentCommit {
    /// The identifier of the parent commit.
    pub oid: NonZeroOid,
    /// The identifier of its tree.
    pub tree_oid: NonZeroOid,
    /// Its tree.
    pub tree: Tree,
}

/// A commit: its identifier, its tree, its parents, who made it, and its
/// message.
#[derive(Debug, PartialEq, Eq, Hash)]
pub struct Commit {
    /// The identifier of the commit.
    pub oid: NonZeroOid,
    /// The identifier of its tree.
    pub tree_oid: NonZeroOid,
    /// Its tree.
    pub tree: Tree,
    /// Its parents, in order.
    pub parents: Vec<ParentCommit>,
    /// Who wrote the change.
    pub author: Signature,
    /// Who made the commit.
    pub committer: Signature,
    /// The message, as bytes.
    pub message: Vec<u8>,
}

/// The identifiers of the parents.
pub open spec fn parent_oids(parents: Seq<ParentCommit>) -> Seq<NonZeroOid> {
    Seq::new(parents.len(), |i: int| parents[i].oid)
}

impl Commit {
    /// Whether the identifiers of the trees of the commit and of its parents
    /// are the names of their contents: a parent whose tree has the
    /// identifier of the commit's tree holds the same files as the commit.
    /// This holds of every commit that is read from a store that names
    /// trees by their contents.
    pub open spec fn content_addressed(&self) -> bool {
        forall|i: int|
            0 <= i < self.parents@.len() && (#[trigger] self.parents@[i]).tree_oid == self.tree_oid
                ==> files(self.parents@[i].tree@) == files(self.tree@)
    }

    /// Whether the identifiers of the trees of the commit and of its parents
    /// are the names of their contents.
    pub fn is_content_addressed(&self) -> (r: bool)
        ensures
            r == self.content_addressed(),
    {
        let mut i: usize = 0;
        while i < self.parents.len()
            invariant
                i <= self.parents@.len(),
                forall|k: int|
                    0 <= k < i && (#[trigger] self.parents@[k]).tree_oid == self.tree_oid ==> files(
                        self.parents@[k].tree@,
                    ) == files(self.tree@),
            decreases self.parents@.len() - i,
        {
            proof {
                self.parents@[i as int].tree_oid.lemma_view(self.tree_oid);
            }
            if self.parents[i].tree_oid == self.tree_oid && !self.parents[i].tree.holds_same_files(
                &self.tree,
            ) {
                return false;
            }
            i += 1;
        }
        true
    }

    /// The identifier of the commit.
    pub fn get_oid(&self) -> (r: NonZeroOid)
        ensures
            r == self.oid,
    {
        self.oid
    }

    /// The identifiers of the parents, in order.
    pub fn get_parent_oids(&self) -> (r: Vec<NonZeroOid>)
        ensures
            r@ == parent_oids(self.parents@),
    {
        let mut out: Vec<NonZeroOid> = Vec::new();
        let mut i: usize = 0;
        while i < self.parents.len()
            invariant
                i <= self.parents@.len(),
                out@ == parent_oids(self.parents@).take(i as int),
            decreases self.parents@.len() - i,
        {
            out.push(self.parents[i].oid);
            assert(out@ =~= parent_oids(self.parents@).take(i + 1));
            i += 1;
        }
        assert(out@ =~= parent_oids(self.parents@));
        out
    }

    /// The number of parents.
    pub fn get_parent_count(&self) -> (r: usize)
        ensures
            r == self.parents@.len(),
    {
        self.parents.len()
    }

    /// The parents, in order.
    pub fn get_parents(&self) -> (r: &Vec<ParentCommit>)
        ensures
            r == &self.parents,
    {
        &self.parents
    }

    /// The parent, if there is exactly one.
    pub fn get_only_parent(&self) -> (r: Option<&ParentCommit>)
        ensures
            self.parents@.len() == 1 ==> r == Some(&self.parents@[0]),
            self.parents@.len() != 1 ==> r is None,
    {
        if self.parents.len() == 1 {
            Some(&self.parents[0])
        } else {
            None
        }
    }

    /// The identifier of the parent, if there is exactly one.
    pub fn get_only_parent_oid(&self) -> (r: Option<NonZeroOid>)
        ensures
            self.parents@.len() == 1 ==> r == Some(self.parents@[0].oid),
            self.parents@.len() != 1 ==> r is None,
    {
        match self.get_only_parent() {
            Some(parent) => Some(parent.oid),
            None => None,
        }
    }

    /// When the commit was made: the time of the committer's signature.
    pub fn get_time(&self) -> (r: Time)
        ensures
            r == self.committer.time,
    {
        self.committer.time
    }

    /// Who wrote the change.
    pub fn get_author(&self) -> (r: &Signature)
        ensures
            r == &self.author,
    {
        &self.author
    }

    /// Who made the commit.
    pub fn get_committer(&self) -> (r: &Signature)
        ensures
            r == &self.committer,
    {
        &self.committer
    }

    /// The tree of the commit.
    pub fn get_tree(&self) -> (r: &Tree)
        ensures
            r == &self.tree,
    {
        &self.tree
    }

    /// The message as it was stored.
    pub fn get_message_raw(&self) -> (r: &Vec<u8>)
        ensures
            r == &self.message,
    {
        &self.message
    }

    /// Whether the commit changes nothing: it has exactly one parent, and
    /// that parent has the same tree.
    pub fn is_empty(&self) -> (r: bool)
        ensures
            r == (self.parents@.len() == 1 && self.parents@[0].tree_oid == self.tree_oid),
    {
        broadcast use NonZeroOid::lemma_view;

        if self.parents.len() == 1 {
            self.parents[0].tree_oid == self.tree_oid
        } else {
            false
        }
    }

    /// Whether the commit added, removed or changed what stands at `path`;
    /// `None` unless the commit has exactly one parent. A directory counts as
    /// changed when any of its contents did.
    pub fn contains_touched_path(&self, path: &TreePath) -> (r: Option<bool>)
        ensures
            self.parents@.len() != 1 ==> r is None,
            self.parents@.len() == 1 ==> r == Some(
                nodes_differ(entry_at(self.parents@[0].tree@, path@), entry_at(self.tree@, path@)),
            ),
    {
        let parent = match self.get_only_parent() {
            None => {
                return None;
            },
            Some(parent) => parent,
        };
        let before = parent.tree.get_path(path);
        let after = self.tree.get_path(path);
        Some(entries_differ(before, after))
    }
}

} // verus!
