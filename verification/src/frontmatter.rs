//! The YAML front-matter header: locating it between its `---`
//! delimiter lines, and reading the required `title`, `author` and
//! `url` fields out of it.  The YAML parsing itself is done by the
//! `serde_yaml` crate behind a trusted wrapper; everything around it is
//! verified.
use vstd::prelude::*;

use crate::meta::{subtitle_spec, subtitle_str, Metadata};
use crate::strings::{chars_to_string, str_chars, str_eq, trim_chars, trim_spec};

verus! {

/// The ways reading a document's header can fail.  Input-structure
/// errors abort processing before any counting happens.
#[derive(Debug, Clone, Copy, PartialEq, Eq, Structural)]
pub enum ModelError {
    /// The input had no lines at all.
    EmptyInput,
    /// The first line was not the opening `---` delimiter.
    MissingFrontmatterStart,
    /// No closing `---` delimiter was found.
    UnterminatedFrontmatter,
    /// The text between the delimiters was not valid YAML.
    InvalidYaml,
    /// The front matter lacks the required `title` field.
    MissingTitle,
    /// The front matter lacks the required `author` field.
    MissingAuthor,
    /// The front matter lacks the required `url` field.
    MissingUrl,
}

pub open spec fn message_spec(e: ModelError) -> Seq<char> {
    match e {
        ModelError::EmptyInput => "Input file is empty; expected YAML frontmatter."@,
        ModelError::MissingFrontmatterStart => "Input must start with '---' followed by YAML frontmatter."@,
        ModelError::UnterminatedFrontmatter => "Reached end of file before closing frontmatter delimiter '---'."@,
        ModelError::InvalidYaml => "Invalid YAML frontmatter."@,
        ModelError::MissingTitle => "Frontmatter missing required field 'title'."@,
        ModelError::MissingAuthor => "Frontmatter missing required field 'author'."@,
        ModelError::MissingUrl => "Frontmatter missing required field 'url'."@,
    }
}

impl ModelError {
    /// A human-readable description of the error.
    pub fn message(&self) -> (r: String)
        ensures
            r@ == message_spec(*self),
    {
        match self {
            ModelError::EmptyInput => String::from_str(
                "Input file is empty; expected YAML frontmatter.",
            ),
            ModelError::MissingFrontmatterStart => String::from_str(
                "Input must start with '---' followed by YAML frontmatter.",
            ),
            ModelError::UnterminatedFrontmatter => String::from_str(
                "Reached end of file before closing frontmatter delimiter '---'.",
            ),
            ModelError::InvalidYaml => String::from_str("Invalid YAML frontmatter."),
            ModelError::MissingTitle => String::from_str(
                "Frontmatter missing required field 'title'.",
            ),
            ModelError::MissingAuthor => String::from_str(
                "Frontmatter missing required field 'author'.",
            ),
            ModelError::MissingUrl => String::from_str("Frontmatter missing required field 'url'."),
        }
    }
}

#[verifier::external_type_specification]
#[verifier::external_body]
pub struct ExYamlError(serde_yaml::Error);

/// What looking up a string field in a YAML document yields: `Err` when
/// the document does not parse, `Ok(None)` when the field is absent or
/// not a string, `Ok(Some(..))` with the field's text otherwise.  The
/// result depends only on the document text and the key.
pub uninterp spec fn yaml_str_field(text: Seq<char>, key: Seq<char>) -> Result<
    Option<Seq<char>>,
    (),
>;

/// Relies on `serde_yaml::from_str`, `Value::get` and `Value::as_str`:
/// parsing the document and reading the given top-level field as a
/// string, a pure function of the text and the key.
#[verifier::external_body]
fn yaml_string_field(text: &str, key: &str) -> (r: Result<Option<String>, serde_yaml::Error>)
    ensures
        match r {
            Ok(Some(s)) => yaml_str_field(text@, key@) == Ok::<Option<Seq<char>>, ()>(Some(s@)),
            Ok(None) => yaml_str_field(text@, key@) == Ok::<Option<Seq<char>>, ()>(
                None::<Seq<char>>,
            ),
            Err(_) => yaml_str_field(text@, key@) is Err,
        },
{
    match serde_yaml::from_str::<serde_yaml::Value>(text) {
        Ok(v) => Ok(v.get(key).and_then(|x| x.as_str()).map(|s| s.to_string())),
        Err(e) => Err(e),
    }
}

/// The index of the first closing `---` line at or after `i`.
pub open spec fn find_close(lines: Seq<Seq<char>>, i: int) -> Option<int>
    decreases lines.len() - i,
{
    if i < 0 || i >= lines.len() {
        None
    } else if trim_spec(lines[i]) == "---"@ {
        Some(i)
    } else {
        find_close(lines, i + 1)
    }
}

/// The raw front-matter text: lines 1 through `k - 1`, each with a
/// newline appended.
pub open spec fn fm_raw(lines: Seq<Seq<char>>, k: int) -> Seq<char>
    decreases k,
{
    if k <= 1 {
        Seq::<char>::empty()
    } else {
        fm_raw(lines, k - 1) + lines[k - 1] + "\n"@
    }
}

/// Where the front matter of a document lies: `Ok((raw, body_start))`
/// with the raw YAML text and the index of the first body line, or the
/// input-structure error that rules it out.
pub open spec fn split_frontmatter_spec(lines: Seq<Seq<char>>) -> Result<
    (Seq<char>, int),
    ModelError,
> {
    if lines.len() == 0 {
        Err(ModelError::EmptyInput)
    } else if trim_spec(lines[0]) != "---"@ {
        Err(ModelError::MissingFrontmatterStart)
    } else {
        match find_close(lines, 1) {
            None => Err(ModelError::UnterminatedFrontmatter),
            Some(k) => Ok((fm_raw(lines, k), k + 1)),
        }
    }
}

/// Whether a line is a `---` delimiter, up to surrounding whitespace.
fn is_delimiter(line: &String) -> (r: bool)
    ensures
        r == (trim_spec(line@) == "---"@),
{
    let cs = str_chars(line.as_str());
    let trimmed = trim_chars(&cs);
    let t = chars_to_string(&trimmed);
    str_eq(t.as_str(), "---")
}

/// Locates the front matter in a document's lines: the first line must
/// be `---`, and a matching closing `---` must follow.  Returns the raw
/// YAML text between the delimiters and the index of the first line
/// after the closing delimiter.
pub fn split_frontmatter(lines: &Vec<String>) -> (r: Result<(String, usize), ModelError>)
    ensures
        match r {
            Ok(t) => split_frontmatter_spec(lines.deep_view()) == Ok::<_, ModelError>(
                (t.0@, t.1 as int),
            ),
            Err(e) => split_frontmatter_spec(lines.deep_view()) == Err::<(Seq<char>, int), _>(e),
        },
{
    let ghost lv = lines.deep_view();
    if lines.len() == 0 {
        return Err(ModelError::EmptyInput);
    }
    if !is_delimiter(&lines[0]) {
        return Err(ModelError::MissingFrontmatterStart);
    }
    let mut raw = String::new();
    let mut i: usize = 1;
    proof {
        assert(raw@ =~= fm_raw(lv, 1));
    }
    while i < lines.len()
        invariant
            1 <= i <= lines@.len(),
            lv == lines.deep_view(),
            lv.len() == lines@.len(),
            trim_spec(lv[0]) == "---"@,
            raw@ == fm_raw(lv, i as int),
            forall|j: int| 1 <= j < i ==> trim_spec(lv[j]) != "---"@,
        decreases lines@.len() - i,
    {
        if is_delimiter(&lines[i]) {
            proof {
                lemma_find_close_indexed(lv, 1, i as int);
            }
            return Ok((raw, i + 1));
        }
        raw.append(lines[i].as_str());
        raw.append("\n");
        i = i + 1;
        assert(raw@ =~= fm_raw(lv, i as int));
    }
    proof {
        lemma_find_close_absent(lv, 1);
    }
    Err(ModelError::UnterminatedFrontmatter)
}

proof fn lemma_find_close_indexed(lines: Seq<Seq<char>>, from: int, k: int)
    requires
        0 <= from <= k < lines.len(),
        trim_spec(lines[k]) == "---"@,
        forall|j: int| from <= j < k ==> trim_spec(lines[j]) != "---"@,
    ensures
        find_close(lines, from) == Some(k),
    decreases k - from,
{
    if from < k {
        lemma_find_close_indexed(lines, from + 1, k);
    }
}

proof fn lemma_find_close_absent(lines: Seq<Seq<char>>, from: int)
    requires
        0 <= from,
        forall|j: int| from <= j < lines.len() ==> trim_spec(lines[j]) != "---"@,
    ensures
        find_close(lines, from) is None,
    decreases lines.len() - from,
{
    if from < lines.len() {
        lemma_find_close_absent(lines, from + 1);
    }
}

/// Reads the document metadata out of the raw front-matter text: the
/// required `title`, `author` and `url` fields, in that order of
/// checking, combined with the run's n-gram order and tool version.
/// Fails with `InvalidYaml` exactly when the text does not parse, and
/// with the respective missing-field error exactly when an earlier
/// field was present and that field is absent.
pub fn parse_frontmatter(frontmatter_raw: &str, n: usize, version: &str) -> (r: Result<
    Metadata,
    ModelError,
>)
    ensures
        match r {
            Ok(m) => {
                &&& yaml_str_field(frontmatter_raw@, "title"@) matches Ok(Some(t)) && m.title@ == t
                &&& yaml_str_field(frontmatter_raw@, "author"@) matches Ok(Some(a)) && m.author@
                    == a
                &&& yaml_str_field(frontmatter_raw@, "url"@) matches Ok(Some(u)) && m.url@ == u
                &&& m.n == n
                &&& m.subtitle@ == subtitle_spec(n as int)
                &&& m.version@ == version@
                &&& m.stats is None
            },
            Err(ModelError::InvalidYaml) => yaml_str_field(frontmatter_raw@, "title"@) is Err
                || yaml_str_field(frontmatter_raw@, "author"@) is Err || yaml_str_field(
                frontmatter_raw@,
                "url"@,
            ) is Err,
            Err(ModelError::MissingTitle) => yaml_str_field(frontmatter_raw@, "title"@) == Ok::<
                Option<Seq<char>>,
                (),
            >(None::<Seq<char>>),
            Err(ModelError::MissingAuthor) => yaml_str_field(frontmatter_raw@, "title"@) matches Ok(
                Some(_),
            ) && yaml_str_field(frontmatter_raw@, "author"@) == Ok::<Option<Seq<char>>, ()>(
                None::<Seq<char>>,
            ),
            Err(ModelError::MissingUrl) => yaml_str_field(frontmatter_raw@, "author"@) matches Ok(
                Some(_),
            ) && yaml_str_field(frontmatter_raw@, "url"@) == Ok::<Option<Seq<char>>, ()>(
                None::<Seq<char>>,
            ),
            Err(_) => false,
        },
{
    let title = match yaml_string_field(frontmatter_raw, "title") {
        Err(_) => {
            return Err(ModelError::InvalidYaml);
        },
        Ok(None) => {
            return Err(ModelError::MissingTitle);
        },
        Ok(Some(t)) => t,
    };
    let author = match yaml_string_field(frontmatter_raw, "author") {
        Err(_) => {
            return Err(ModelError::InvalidYaml);
        },
        Ok(None) => {
            return Err(ModelError::MissingAuthor);
        },
        Ok(Some(a)) => a,
    };
    let url = match yaml_string_field(frontmatter_raw, "url") {
        Err(_) => {
            return Err(ModelError::InvalidYaml);
        },
        Ok(None) => {
            return Err(ModelError::MissingUrl);
        },
        Ok(Some(u)) => u,
    };
    Ok(
        Metadata {
            title,
            author,
            url,
            n,
            subtitle: subtitle_str(n),
            version: String::from_str(version),
            stats: None,
        },
    )
}

} // verus!
