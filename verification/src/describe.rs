//! Descriptions of commits for people to read.

use vstd::prelude::*;
use crate::commit::{describe_signature, Commit, Time};
use crate::error::RepoError;
use crate::message::{get_message_pretty, pretty_message};
use crate::oid::hex_of;
use crate::smartlog::text::{BaseColor, Style, StyledSpan, StyledString};

verus! {

/// The date and time, without time zone, that `chrono` writes for the given
/// number of seconds since the epoch; nothing where the time is out of its
/// range.
pub uninterp spec fn date_time_text(seconds: i64) -> Option<Seq<char>>;

/// What `textwrap::indent` makes of a text and a prefix.
pub uninterp spec fn indented_text(text: Seq<char>, prefix: Seq<char>) -> Seq<char>;

/// The text that `bstr` reads from bytes, with a replacement character for
/// what is not valid UTF-8.
pub uninterp spec fn lossy_text(bytes: Seq<u8>) -> Seq<char>;

/// Calls `chrono::DateTime::from_timestamp` for the given second, takes the
/// date and time without time zone (`naive_utc`) and writes it as text. The
/// contract gives the outcome a name and claims nothing else of it.
#[verifier::external_body]
fn write_date_time(seconds: i64) -> (r: Option<String>)
    ensures
        match r {
            Some(text) => date_time_text(seconds) == Some(text@),
            None => date_time_text(seconds) is None,
        },
{
    match chrono::DateTime::from_timestamp(seconds, 0) {
        Some(date_time) => Some(date_time.naive_utc().to_string()),
        None => None,
    }
}

/// Calls `textwrap::indent`, which puts the prefix in front of each line.
/// The contract gives the outcome a name and claims nothing else of it.
#[verifier::external_body]
fn indent(text: &str, prefix: &str) -> (r: String)
    ensures
        r@ == indented_text(text@, prefix@),
{
    textwrap::indent(text, prefix)
}

/// Calls `bstr::ByteSlice::to_str_lossy`, which reads text from bytes and
/// puts a replacement character for what is not valid UTF-8. The contract
/// gives the outcome a name and claims nothing else of it.
#[verifier::external_body]
fn read_lossy(bytes: &[u8]) -> (r: String)
    ensures
        r@ == lossy_text(bytes@),
{
    bstr::ByteSlice::to_str_lossy(bytes).into_owned()
}

impl Time {
    /// The date and time as text, without time zone; nothing where the time
    /// is too far from the epoch.
    pub fn to_naive_date_time(&self) -> (r: Option<String>)
        ensures
            match r {
                Some(text) => date_time_text(self.seconds) == Some(text@),
                None => date_time_text(self.seconds) is None,
            },
    {
        write_date_time(self.seconds)
    }
}

/// A style with a light colour.
pub open spec fn light(color: BaseColor) -> Style {
    Style { color: Some(color), light: true, bold: false, dim: false, underline: false }
}

/// The preview of a commit, given its date as text: the identifier, the
/// author and the date, each on a line of its own in its own colour, and
/// the message, indented.
pub open spec fn preview(
    oid: Seq<u8>,
    author: Option<Seq<char>>,
    date: Seq<char>,
    message: Seq<char>,
) -> Seq<(Seq<char>, Style)> {
    seq![
        ("Commit:\t"@ + hex_of(oid), light(BaseColor::Yellow)),
        ("\n"@, crate::smartlog::text::plain_style()),
        (
            "Author:\t"@ + match author {
                Some(a) => a,
                None => Seq::empty(),
            },
            light(BaseColor::Magenta),
        ),
        ("\n"@, crate::smartlog::text::plain_style()),
        ("Date:\t"@ + date, light(BaseColor::Green)),
        ("\n"@, crate::smartlog::text::plain_style()),
        (message, crate::smartlog::text::plain_style()),
    ]
}

/// Puts the preview together from its parts.
pub fn make_preview(oid: String, author: Option<String>, date: String, message: String) -> (r:
    StyledString)
    ensures
        r@ == seq![
            ("Commit:\t"@ + oid@, light(BaseColor::Yellow)),
            ("\n"@, crate::smartlog::text::plain_style()),
            (
                "Author:\t"@ + match author {
                    Some(a) => a@,
                    None => Seq::empty(),
                },
                light(BaseColor::Magenta),
            ),
            ("\n"@, crate::smartlog::text::plain_style()),
            ("Date:\t"@ + date@, light(BaseColor::Green)),
            ("\n"@, crate::smartlog::text::plain_style()),
            (message@, crate::smartlog::text::plain_style()),
        ],
{
    let mut commit_line = String::from_str("Commit:\t");
    commit_line.append(oid.as_str());
    let mut author_line = String::from_str("Author:\t");
    let ghost author_text: Seq<char> = match crate::commit::string_opt_view(author) {
        Some(a) => a,
        None => Seq::empty(),
    };
    match &author {
        Some(a) => {
            author_line.append(a.as_str());
        },
        None => {
            assert(author_line@ + Seq::<char>::empty() =~= author_line@);
        },
    }
    assert(author_line@ == "Author:\t"@ + author_text);
    let mut date_line = String::from_str("Date:\t");
    date_line.append(date.as_str());
    let yellow = Style { color: Some(BaseColor::Yellow), light: true, bold: false, dim: false, underline: false };
    let magenta = Style { color: Some(BaseColor::Magenta), light: true, bold: false, dim: false, underline: false };
    let green = Style { color: Some(BaseColor::Green), light: true, bold: false, dim: false, underline: false };
    let mut spans: Vec<StyledSpan> = Vec::new();
    spans.push(StyledSpan { content: commit_line, style: yellow });
    spans.push(StyledSpan { content: String::from_str("\n"), style: Style::plain() });
    spans.push(StyledSpan { content: author_line, style: magenta });
    spans.push(StyledSpan { content: String::from_str("\n"), style: Style::plain() });
    spans.push(StyledSpan { content: date_line, style: green });
    spans.push(StyledSpan { content: String::from_str("\n"), style: Style::plain() });
    spans.push(StyledSpan { content: message, style: Style::plain() });
    let r = StyledString { spans };
    assert(r@ =~= seq![
        ("Commit:\t"@ + oid@, light(BaseColor::Yellow)),
        ("\n"@, crate::smartlog::text::plain_style()),
        ("Author:\t"@ + author_text, light(BaseColor::Magenta)),
        ("\n"@, crate::smartlog::text::plain_style()),
        ("Date:\t"@ + date@, light(BaseColor::Green)),
        ("\n"@, crate::smartlog::text::plain_style()),
        (message@, crate::smartlog::text::plain_style()),
    ]);
    r
}

impl Commit {
    /// Get a multi-line description of this commit containing information
    /// about its identifier, author, commit time, and message. A commit
    /// whose time is too far from the epoch to be written has none.
    pub fn friendly_preview(&self) -> (r: Result<StyledString, RepoError>)
        ensures
            match date_time_text(self.committer.time.seconds) {
                Some(date) => r matches Ok(text) && text@ == preview(
                    self.oid@,
                    describe_signature(self.author@.name, self.author@.email),
                    date,
                    indented_text(lossy_text(pretty_message(self.message@)), "    "@),
                ),
                None => r matches Err(RepoError::TimeOutOfRange),
            },
    {
        let date = match self.get_time().to_naive_date_time() {
            Some(date) => date,
            None => {
                return Err(RepoError::TimeOutOfRange);
            },
        };
        let author = self.author.friendly_describe();
        let message_pretty = get_message_pretty(&self.message);
        let message = indent(read_lossy(message_pretty.as_slice()).as_str(), "    ");
        Ok(make_preview(self.oid.to_hex(), author, date, message))
    }
}

} // verus!
