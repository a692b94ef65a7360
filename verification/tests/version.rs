use git_branchless::error::RepoError;
use git_branchless::version::GitVersion;

#[test]
fn test_parse_git_version_output() {
    assert_eq!(
        "git version 12.34.56".parse::<GitVersion>().unwrap(),
        GitVersion(12, 34, 56)
    );
    assert_eq!(
        "git version 12.34.56\n".parse::<GitVersion>().unwrap(),
        GitVersion(12, 34, 56)
    );
    assert_eq!(
        "git version 12.34.56.78.abcdef"
            .parse::<GitVersion>()
            .unwrap(),
        GitVersion(12, 34, 56)
    );

    assert_eq!(
        "git version 2.33.0-rc0".parse::<GitVersion>().unwrap(),
        GitVersion(2, 33, 0)
    );

    assert_eq!(
        "git version 2.33.GIT".parse::<GitVersion>().unwrap(),
        GitVersion(2, 33, 0)
    );
}

#[test]
fn version_with_too_few_words_is_refused() {
    match "  git version \t".parse::<GitVersion>() {
        Err(RepoError::ParseGitVersionOutput(text)) => assert_eq!(text, "git version"),
        other => panic!("unexpected: {:?}", other),
    }
}

#[test]
fn version_with_too_few_components_is_refused() {
    match "git version 2.33".parse::<GitVersion>() {
        Err(RepoError::ParseGitVersionSpecifier(text)) => assert_eq!(text, "2.33"),
        other => panic!("unexpected: {:?}", other),
    }
}

#[test]
fn version_with_a_word_for_a_number_is_refused() {
    match "git version two.33.1".parse::<GitVersion>() {
        Err(RepoError::ParseGitVersionSpecifier(text)) => assert_eq!(text, "two.33.1"),
        other => panic!("unexpected: {:?}", other),
    }
    match "git version 2..1".parse::<GitVersion>() {
        Err(RepoError::ParseGitVersionSpecifier(text)) => assert_eq!(text, "2..1"),
        other => panic!("unexpected: {:?}", other),
    }
}

#[test]
fn version_numbers_agree_with_the_standard_library() {
    for text in ["+7", "007", "9223372036854775807", "9223372036854775808", "", "+", "1a"] {
        let line = format!("git version {}.{}.{}", text, text, text);
        let expected = text.parse::<isize>().ok();
        match (line.parse::<GitVersion>(), expected) {
            (Ok(GitVersion(major, minor, patch)), Some(n)) => {
                assert_eq!((major, minor, patch), (n, n, n));
            }
            (Err(RepoError::ParseGitVersionSpecifier(_)), None) => {}
            (Err(RepoError::ParseGitVersionOutput(_)), None) => assert_eq!(text, ""),
            (other, _) => panic!("unexpected for {:?}: {:?}", text, other),
        }
    }
}
