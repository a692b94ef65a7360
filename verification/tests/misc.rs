use git_branchless::commit::{Commit, Signature, SignatureError, Time};
use git_branchless::error::{RepoError, Utf8Item};
use git_branchless::message::{comment_char_byte, decode_trailers, get_message_pretty, get_trailers};
use git_branchless::oid::{MaybeZeroOid, NonZeroOid};
use git_branchless::reference::{
    is_valid_name, resolve_reference, CategorizedReferenceName, ReferenceKind, ReferenceName,
    ReferenceTarget, ResolvedReferenceInfo,
};
use git_branchless::repo::{
    choose_push_remote, get_all_remote_names, get_current_operation_type,
    is_rebase_underway, is_unsupported_revparse_spec, split_status_output, RepositoryState,
};
use git_branchless::smartlog::text::BaseColor;
use git_branchless::strings::{parse_number, split, starts_with, to_chars, trim, without_prefix};
use git_branchless::tree::Tree;

fn oid(n: u8) -> NonZeroOid {
    NonZeroOid::from_bytes([n; 20]).unwrap()
}

#[test]
fn reference_name_is_made_from_utf8_only() {
    let name = ReferenceName::from_bytes(b"refs/heads/\xc3\xa9".to_vec()).unwrap();
    assert_eq!(name.as_str(), "refs/heads/é");
    assert!(ReferenceName::from_bytes(vec![b'a', 0xff]).is_err());
    assert_eq!(ReferenceName::from_str("HEAD").as_str(), "HEAD");
    assert_eq!(ReferenceName::from_string("x".to_string()), ReferenceName("x".to_string()));
    assert_eq!(ReferenceName::from_oid(oid(0xab)).as_str(), "ab".repeat(20));
    assert_eq!(name.clone(), name);
}

#[test]
fn reference_names_are_categorized_by_prefix() {
    let local = ReferenceName::from_str("refs/heads/foo/bar");
    let remote = ReferenceName::from_str("refs/remotes/origin/main");
    let other = ReferenceName::from_str("refs/tags/v1");
    let bare = ReferenceName::from_str("refs/heads");

    let name = CategorizedReferenceName::new(&local);
    assert!(matches!(name, CategorizedReferenceName::LocalBranch { .. }));
    assert_eq!(name.remove_prefix().unwrap(), "foo/bar");
    assert_eq!(name.render_full(), "refs/heads/foo/bar");
    assert_eq!(name.render_suffix(), "foo/bar");
    assert_eq!(name.friendly_describe(), "branch foo/bar");

    let name = CategorizedReferenceName::new(&remote);
    assert!(matches!(name, CategorizedReferenceName::RemoteBranch { .. }));
    assert_eq!(name.remove_prefix().unwrap(), "origin/main");
    assert_eq!(name.render_full(), "refs/remotes/origin/main");
    assert_eq!(name.friendly_describe(), "remote branch origin/main");

    let name = CategorizedReferenceName::new(&other);
    assert!(matches!(name, CategorizedReferenceName::OtherRef { .. }));
    assert_eq!(name.render_suffix(), "refs/tags/v1");
    assert_eq!(name.friendly_describe(), "ref refs/tags/v1");

    let name = CategorizedReferenceName::new(&bare);
    assert!(matches!(name, CategorizedReferenceName::OtherRef { .. }));
    assert_eq!(name.friendly_describe(), "ref refs/heads");
}

#[test]
fn branch_name_is_the_reference_without_its_prefix() {
    let info = |name: Option<&str>| ResolvedReferenceInfo {
        oid: Some(oid(1)),
        reference_name: name.map(ReferenceName::from_str),
    };
    assert_eq!(info(Some("refs/heads/main")).get_branch_name().unwrap(), Some("main"));
    assert_eq!(info(Some("refs/tags/v1")).get_branch_name().unwrap(), Some("refs/tags/v1"));
    assert_eq!(info(Some("refs/heads/")).get_branch_name().unwrap(), Some(""));
    assert_eq!(info(None).get_branch_name().unwrap(), None);
}

#[test]
fn references_are_resolved_by_kind() {
    let direct = resolve_reference(Some(oid(1)), Some(ReferenceKind::Direct), None).unwrap();
    assert_eq!(direct.oid, Some(oid(1)));
    assert_eq!(direct.reference_name, None);
    let symbolic = resolve_reference(None, Some(ReferenceKind::Symbolic), Some(b"refs/heads/main".to_vec())).unwrap();
    assert_eq!(symbolic.oid, None);
    assert_eq!(symbolic.reference_name, Some(ReferenceName::from_str("refs/heads/main")));
    assert!(matches!(
        resolve_reference(None, Some(ReferenceKind::Symbolic), None),
        Err(RepoError::DecodeUtf8 { item: Utf8Item::Reference })
    ));
    assert!(matches!(
        resolve_reference(None, Some(ReferenceKind::Symbolic), Some(vec![0xff])),
        Err(RepoError::DecodeUtf8 { item: Utf8Item::Reference })
    ));
    assert!(matches!(
        resolve_reference(Some(oid(1)), None, None),
        Err(RepoError::UnknownReferenceType)
    ));
}

#[test]
fn reference_names_are_checked_by_the_store() {
    assert!(is_valid_name("HEAD"));
    assert!(is_valid_name("refs/heads/main"));
    assert!(!is_valid_name("main"));
    assert!(!is_valid_name("refs/heads/*"));
    assert!(!is_valid_name("foo//bar"));
}

#[test]
fn comment_character_must_fit_in_a_byte() {
    assert_eq!(comment_char_byte(None).unwrap(), None);
    assert_eq!(comment_char_byte(Some('#')).unwrap(), Some(b'#'));
    assert_eq!(comment_char_byte(Some(';')).unwrap(), Some(b';'));
    assert_eq!(comment_char_byte(Some('\u{ff}')).unwrap(), Some(0xff));
    match comment_char_byte(Some('\u{100}')) {
        Err(RepoError::CommentCharNotAscii { char }) => assert_eq!(char, 0x100),
        other => panic!("unexpected: {:?}", other),
    }
    match comment_char_byte(Some('\u{2603}')) {
        Err(RepoError::CommentCharNotAscii { char }) => assert_eq!(char, 0x2603),
        other => panic!("unexpected: {:?}", other),
    }
}

#[test]
fn trailers_are_read_from_the_message() {
    let message = b"subject\n\nbody\n\nSigned-off-by: A <a@example.com>\nReviewed-by: B\n".to_vec();
    assert_eq!(
        get_trailers(&message).unwrap(),
        vec![
            ("Signed-off-by".to_string(), "A <a@example.com>".to_string()),
            ("Reviewed-by".to_string(), "B".to_string()),
        ]
    );
    assert_eq!(get_trailers(&b"subject only".to_vec()).unwrap(), vec![]);
    assert!(matches!(
        get_trailers(&vec![b'a', 0xff]),
        Err(RepoError::DecodeUtf8 { item: Utf8Item::RawMessage })
    ));
    assert_eq!(
        decode_trailers(vec![
            (b"k".to_vec(), b"v".to_vec()),
            (vec![0xff], b"v".to_vec()),
            (b"k2".to_vec(), vec![0xc3]),
            (b"k3".to_vec(), "\u{e9}".as_bytes().to_vec()),
        ]),
        vec![("k".to_string(), "v".to_string()), ("k3".to_string(), "\u{e9}".to_string())]
    );
}

#[test]
fn pretty_message_has_no_line_feed_at_its_start() {
    assert_eq!(get_message_pretty(&b"\n\nsubject\n\nbody\n".to_vec()), b"subject\n\nbody\n".to_vec());
    assert_eq!(get_message_pretty(&b"subject".to_vec()), b"subject".to_vec());
    assert_eq!(get_message_pretty(&b"\n\n".to_vec()), Vec::<u8>::new());
    assert_eq!(get_message_pretty(&b" \nx".to_vec()), b" \nx".to_vec());
}

fn commit_with(message: &[u8], author: Signature, seconds: i64) -> Commit {
    Commit {
        oid: oid(0xcd),
        tree_oid: oid(2),
        tree: Tree::new(),
        parents: vec![],
        author,
        committer: Signature {
            name: Some("C".to_string()),
            email: Some("c@example.com".to_string()),
            time: Time { seconds, offset_minutes: 120 },
        },
        message: message.to_vec(),
    }
}

#[test]
fn preview_shows_identifier_author_date_and_message() {
    let author = Signature {
        name: Some("A U Thor".to_string()),
        email: Some("a@example.com".to_string()),
        time: Time { seconds: 5, offset_minutes: 0 },
    };
    let commit = commit_with(b"\nsubject\n\nbody \xff\n", author, 86400 + 3661);
    let preview = commit.friendly_preview().unwrap();
    let spans: Vec<(&str, Option<BaseColor>, bool)> = preview
        .spans
        .iter()
        .map(|span| (span.content.as_str(), span.style.color, span.style.light))
        .collect();
    let commit_line = format!("Commit:\t{}", "cd".repeat(20));
    assert_eq!(
        spans,
        vec![
            (commit_line.as_str(), Some(BaseColor::Yellow), true),
            ("\n", None, false),
            ("Author:\tA U Thor <a@example.com>", Some(BaseColor::Magenta), true),
            ("\n", None, false),
            ("Date:\t1970-01-02 01:01:01", Some(BaseColor::Green), true),
            ("\n", None, false),
            ("    subject\n\n    body \u{fffd}\n", None, false),
        ]
    );
    assert_eq!(commit.get_time().to_naive_date_time().unwrap(), "1970-01-02 01:01:01");
    let nameless = Signature { name: None, email: None, time: Time { seconds: 0, offset_minutes: 0 } };
    let preview = commit_with(b"m", nameless, 0).friendly_preview().unwrap();
    assert_eq!(preview.spans[2].content, "Author:\t");
    assert_eq!(preview.spans[4].content, "Date:\t1970-01-01 00:00:00");
    assert!(matches!(
        commit_with(b"m", Signature::automated(), i64::MAX).friendly_preview(),
        Err(RepoError::TimeOutOfRange)
    ));
}

#[test]
fn signature_is_described_by_name_and_address() {
    let signature = |name: Option<&str>, email: Option<&str>| Signature {
        name: name.map(|s| s.to_string()),
        email: email.map(|s| s.to_string()),
        time: Time { seconds: 7, offset_minutes: -30 },
    };
    assert_eq!(signature(Some("N"), Some("e@x")).friendly_describe(), Some("N <e@x>".to_string()));
    assert_eq!(signature(Some("N"), None).friendly_describe(), Some("N".to_string()));
    assert_eq!(signature(None, Some("e@x")).friendly_describe(), Some("<e@x>".to_string()));
    assert_eq!(signature(None, None).friendly_describe(), None);
    assert_eq!(signature(Some("N"), None).get_name(), Some("N"));
    assert_eq!(signature(Some("N"), None).get_email(), None);
    assert_eq!(signature(None, None).get_time(), Time { seconds: 7, offset_minutes: -30 });

    let updated = signature(Some("N"), Some("e@x")).update_timestamp(100).unwrap();
    assert_eq!(updated, Signature {
        name: Some("N".to_string()),
        email: Some("e@x".to_string()),
        time: Time { seconds: 100, offset_minutes: -30 },
    });
    assert_eq!(signature(None, Some("e@x")).update_timestamp(1), Err(SignatureError::DecodeName));
    assert_eq!(signature(Some("N"), None).update_timestamp(1), Err(SignatureError::DecodeEmail));
    assert_eq!(
        signature(None, None).update_timestamp(u64::MAX),
        Err(SignatureError::IntegerConvert)
    );
    assert_eq!(
        signature(Some("N"), Some("e")).update_timestamp(i64::MAX as u64).unwrap().time.seconds,
        i64::MAX
    );
    assert_eq!(Signature::automated().clone(), Signature::automated());
}

#[test]
fn times_are_ordered_by_second_then_offset() {
    let t = |seconds: i64, offset_minutes: i32| Time { seconds, offset_minutes };
    assert!(t(1, 0).is_before(&t(2, -600)));
    assert!(t(1, -60).is_before(&t(1, 0)));
    assert!(!t(1, 0).is_before(&t(1, 0)));
    assert!(!t(2, 0).is_before(&t(1, 60)));
    assert_eq!(t(5, 0).to_unix_seconds(), Some(5));
    assert_eq!(t(-1, 0).to_unix_seconds(), None);
}

#[test]
fn commit_hands_out_its_parts() {
    let commit = commit_with(b"m", Signature::automated(), 9);
    assert_eq!(commit.get_oid(), oid(0xcd));
    assert_eq!(commit.get_parent_count(), 0);
    assert_eq!(commit.get_parent_oids(), vec![]);
    assert_eq!(commit.get_only_parent_oid(), None);
    assert!(commit.get_only_parent().is_none());
    assert!(commit.get_parents().is_empty());
    assert_eq!(commit.get_time(), Time { seconds: 9, offset_minutes: 120 });
    assert_eq!(commit.get_author(), &Signature::automated());
    assert_eq!(commit.get_committer().get_name(), Some("C"));
    assert_eq!(commit.get_tree(), &Tree::new());
    assert_eq!(commit.get_message_raw(), &b"m".to_vec());
}

#[test]
fn repository_state_tells_the_operation() {
    for (state, rebase, name) in [
        (RepositoryState::Clean, false, None),
        (RepositoryState::Merge, false, Some("merge")),
        (RepositoryState::Revert, false, Some("revert")),
        (RepositoryState::RevertSequence, false, Some("revert")),
        (RepositoryState::CherryPick, false, Some("cherry-pick")),
        (RepositoryState::CherryPickSequence, false, Some("cherry-pick")),
        (RepositoryState::Bisect, false, None),
        (RepositoryState::Rebase, true, Some("rebase")),
        (RepositoryState::RebaseInteractive, true, Some("rebase")),
        (RepositoryState::RebaseMerge, true, Some("rebase")),
        (RepositoryState::ApplyMailbox, false, Some("am")),
        (RepositoryState::ApplyMailboxOrRebase, false, Some("am")),
    ] {
        assert_eq!(is_rebase_underway(state).unwrap(), rebase);
        assert_eq!(get_current_operation_type(state), name);
    }
}

#[test]
fn revision_that_ends_in_at_is_unsupported() {
    assert!(is_unsupported_revparse_spec("foo-@"));
    assert!(is_unsupported_revparse_spec("é@"));
    assert!(!is_unsupported_revparse_spec("@"));
    assert!(!is_unsupported_revparse_spec("@foo"));
    assert!(!is_unsupported_revparse_spec(""));
}

#[test]
fn push_remote_is_preferred() {
    let s = |text: &str| Some(text.to_string());
    assert_eq!(choose_push_remote(s("push"), s("remote")), s("push"));
    assert_eq!(choose_push_remote(None, s("remote")), s("remote"));
    assert_eq!(choose_push_remote(s("push"), None), s("push"));
    assert_eq!(choose_push_remote(None, None), None);
}

#[test]
fn remote_names_are_sorted() {
    let s = |text: &str| Some(text.to_string());
    assert_eq!(
        get_all_remote_names(vec![s("origin"), None, s("upstream"), s("Fork"), s("a"), s("origin")]),
        vec!["Fork", "a", "origin", "origin", "upstream"]
    );
    assert!(get_all_remote_names(vec![None]).is_empty());
}

#[test]
fn status_output_is_cut_into_entries() {
    let output = b"1 .M N... 100644 100644 100644 abc abc a.txt\0\
2 R. N... 100644 100644 100644 abc abc R100 new.txt\0old.txt\0\
u UU N... 100644 100644 100644 100644 a b c conflicted.txt\0"
        .to_vec();
    assert_eq!(
        split_status_output(&output).unwrap(),
        vec![
            b"1 .M N... 100644 100644 100644 abc abc a.txt".to_vec(),
            b"2 R. N... 100644 100644 100644 abc abc R100 new.txt\0old.txt".to_vec(),
            b"u UU N... 100644 100644 100644 100644 a b c conflicted.txt".to_vec(),
        ]
    );
    assert_eq!(split_status_output(&Vec::new()).unwrap(), Vec::<Vec<u8>>::new());
    assert_eq!(split_status_output(&b"1 no end".to_vec()).unwrap(), vec![b"1 no end".to_vec()]);
    assert_eq!(split_status_output(&b"2 a\0".to_vec()).unwrap(), vec![b"2 a\0".to_vec()]);
    match split_status_output(&b"1 ok\0? untracked\0".to_vec()) {
        Err(RepoError::UnknownStatusLinePrefix { prefix }) => assert_eq!(prefix, b'?'),
        other => panic!("unexpected: {:?}", other),
    }
    match split_status_output(&b"\0".to_vec()) {
        Err(RepoError::UnknownStatusLinePrefix { prefix }) => assert_eq!(prefix, 0),
        other => panic!("unexpected: {:?}", other),
    }
}

#[test]
fn text_helpers_agree_with_the_standard_library() {
    for text in ["", " ", "  a b  ", "\t\n x\u{a0}\u{3000}", "abc", "\u{2003}é\u{2028}", "a\u{200b}"] {
        assert_eq!(to_chars(text), text.chars().collect::<Vec<_>>());
        assert_eq!(trim(text), text.trim());
    }
    for text in ["", "a", "a-b c", "--", " a ", "1.2.3", "a..b."] {
        assert_eq!(split(text, ' ', '-'), text.split(&[' ', '-'][..]).collect::<Vec<_>>());
        assert_eq!(split(text, '.', '.'), text.split('.').collect::<Vec<_>>());
    }
    for text in ["0", "-0", "+5", "-12", "12a", "", "-", "+", "--1", "9223372036854775807", "-9223372036854775808", "-9223372036854775809", "9223372036854775808", "00000000000000000000001", "１"] {
        assert_eq!(parse_number(text), text.parse::<isize>().ok());
    }
    for (text, prefix) in [("refs/heads/x", "refs/heads/"), ("refs", "refs/"), ("", ""), ("é", "é"), ("ab", "b")] {
        assert_eq!(starts_with(text, prefix), text.starts_with(prefix));
        assert_eq!(without_prefix(text, prefix), text.strip_prefix(prefix).unwrap_or(text));
    }
}

#[test]
fn reference_target_is_direct_or_symbolic() {
    let direct = ReferenceTarget::Direct { oid: MaybeZeroOid::NonZero(oid(1)) };
    let absent = ReferenceTarget::Direct { oid: MaybeZeroOid::Zero };
    let symbolic = ReferenceTarget::Symbolic { reference_name: b"refs/heads/main".to_vec() };
    assert_ne!(direct, absent);
    assert_ne!(direct, symbolic);
    assert_eq!(symbolic, ReferenceTarget::Symbolic { reference_name: b"refs/heads/main".to_vec() });
}
