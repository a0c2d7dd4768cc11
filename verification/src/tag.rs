//! Parsing one VM tag into a directive.
//!
//! A tag is recognized when it starts with the prefix `prom:`. A recognized
//! tag must have the shape `prom:<job>:<key>=<value>`: the text after the
//! prefix is split at the first `:` into the job segment and the remainder,
//! and the remainder is split at the first `=` into key and value. The value
//! is opaque and may itself contain `:` or `=`. An empty job segment makes
//! the directive a global label; a non-empty job whose key equals the job
//! name sets that job's scrape address; any other key is a job-scoped label.

use vstd::prelude::*;

verus! {

/// The parsed form of one recognized tag, at the specification level.
pub enum SpecDirective {
    /// A label applying to every job this VM contributes to.
    GlobalLabel { key: Seq<char>, value: Seq<char> },
    /// A label scoped to one job.
    JobLabel { job: Seq<char>, key: Seq<char>, value: Seq<char> },
    /// The scrape address (port or address suffix) for one job.
    JobAddress { job: Seq<char>, value: Seq<char> },
}

/// What parsing one tag yields: the tag is not a directive at all, it looks
/// like one but is malformed, or it is a well-formed directive.
pub enum SpecParse {
    NotRecognized,
    Malformed,
    Directive(SpecDirective),
}

/// The prefix that marks a tag as a directive, final `:` included.
pub open spec fn tag_prefix() -> Seq<char> {
    seq!['p', 'r', 'o', 'm', ':']
}

/// Index of the first occurrence of `c` in `s`, if any.
pub open spec fn first_index_of(s: Seq<char>, c: char) -> Option<int>
    decreases s.len(),
{
    if s.len() == 0 {
        None
    } else if s[0] == c {
        Some(0)
    } else {
        match first_index_of(s.drop_first(), c) {
            Some(i) => Some(i + 1),
            None => None,
        }
    }
}

/// The tag grammar: `prom:<job>:<key>=<value>`, with the job segment ending
/// at the first `:` after the prefix and the key ending at the first `=`
/// after that.
pub open spec fn spec_parse(t: Seq<char>) -> SpecParse {
    if !(t.len() >= 5 && t.subrange(0, 5) == tag_prefix()) {
        SpecParse::NotRecognized
    } else {
        let rest = t.subrange(5, t.len() as int);
        match first_index_of(rest, ':') {
            None => SpecParse::Malformed,
            Some(i) => {
                let job = rest.subrange(0, i);
                let kv = rest.subrange(i + 1, rest.len() as int);
                match first_index_of(kv, '=') {
                    None => SpecParse::Malformed,
                    Some(j) => {
                        let key = kv.subrange(0, j);
                        let value = kv.subrange(j + 1, kv.len() as int);
                        if job.len() == 0 {
                            SpecParse::Directive(SpecDirective::GlobalLabel { key, value })
                        } else if key == job {
                            SpecParse::Directive(SpecDirective::JobAddress { job, value })
                        } else {
                            SpecParse::Directive(SpecDirective::JobLabel { job, key, value })
                        }
                    },
                }
            },
        }
    }
}

/// The parsed form of one recognized tag.
#[derive(Debug, PartialEq, Eq)]
pub enum TagDirective {
    /// A label applying to every job this VM contributes to.
    GlobalLabel { key: String, value: String },
    /// A label scoped to one job.
    JobLabel { job: String, key: String, value: String },
    /// The scrape address (port or address suffix) for one job.
    JobAddress { job: String, value: String },
}

impl View for TagDirective {
    type V = SpecDirective;

    open spec fn view(&self) -> SpecDirective {
        match self {
            TagDirective::GlobalLabel { key, value } => SpecDirective::GlobalLabel {
                key: key@,
                value: value@,
            },
            TagDirective::JobLabel { job, key, value } => SpecDirective::JobLabel {
                job: job@,
                key: key@,
                value: value@,
            },
            TagDirective::JobAddress { job, value } => SpecDirective::JobAddress {
                job: job@,
                value: value@,
            },
        }
    }
}

/// Why a recognized tag was rejected; the offending tag is carried along.
#[derive(Debug, PartialEq, Eq)]
pub enum ParseError {
    /// The tag starts with the directive prefix but lacks the `:` separator
    /// after the job segment or the `=` separator inside the label part.
    Malformed(String),
}

proof fn lemma_first_index_of_some(s: Seq<char>, c: char, i: int)
    requires
        0 <= i < s.len(),
        s[i] == c,
        forall|j: int| 0 <= j < i ==> s[j] != c,
    ensures
        first_index_of(s, c) == Some(i),
    decreases s.len(),
{
    if i > 0 {
        lemma_first_index_of_some(s.drop_first(), c, i - 1);
    }
}

proof fn lemma_first_index_of_none(s: Seq<char>, c: char)
    requires
        forall|j: int| 0 <= j < s.len() ==> s[j] != c,
    ensures
        first_index_of(s, c) is None,
    decreases s.len(),
{
    if s.len() > 0 {
        lemma_first_index_of_none(s.drop_first(), c);
    }
}

/// Character-for-character string equality.
pub fn str_eq(a: &str, b: &str) -> (r: bool)
    ensures
        r == (a@ == b@),
{
    let na = a.unicode_len();
    let nb = b.unicode_len();
    if na != nb {
        return false;
    }
    let mut i: usize = 0;
    while i < na
        invariant
            na == a@.len(),
            na == b@.len(),
            i <= na,
            forall|j: int| 0 <= j < i ==> a@[j] == b@[j],
        decreases na - i,
    {
        if a.get_char(i) != b.get_char(i) {
            return false;
        }
        i += 1;
    }
    proof {
        assert(a@ =~= b@);
    }
    true
}

/// Index of the first occurrence of `c` in `s` at or after `from`.
fn find_char(s: &str, from: usize, c: char) -> (r: Option<usize>)
    requires
        from <= s@.len(),
    ensures
        match r {
            Some(i) => from <= i < s@.len() && s@[i as int] == c && (forall|j: int|
                from <= j < i ==> s@[j] != c),
            None => forall|j: int| from <= j < s@.len() ==> s@[j] != c,
        },
{
    let n = s.unicode_len();
    let mut i: usize = from;
    while i < n
        invariant
            n == s@.len(),
            from <= i <= n,
            forall|j: int| from <= j < i ==> s@[j] != c,
        decreases n - i,
    {
        if s.get_char(i) == c {
            return Some(i);
        }
        i += 1;
    }
    None
}

/// Parses one tag.
///
/// A tag without the `prom:` prefix is no directive and is ignored
/// (`Ok(None)`); a prefixed tag that does not fit the grammar is an error
/// the caller is expected to skip; a well-formed tag yields its directive.
pub fn parse(tag: &str) -> (r: Result<Option<TagDirective>, ParseError>)
    ensures
        match spec_parse(tag@) {
            SpecParse::NotRecognized => r matches Ok(o) && o is None,
            SpecParse::Malformed => r matches Err(e) && e matches ParseError::Malformed(t)
                && t@ == tag@,
            SpecParse::Directive(d) => r matches Ok(o) && o matches Some(td) && td@ == d,
        },
{
    let n = tag.unicode_len();
    if n < 5 {
        return Ok(None);
    }
    if !(tag.get_char(0) == 'p' && tag.get_char(1) == 'r' && tag.get_char(2) == 'o'
        && tag.get_char(3) == 'm' && tag.get_char(4) == ':') {
        proof {
            assert(tag@.subrange(0, 5) != tag_prefix()) by {
                assert(tag@.subrange(0, 5)[0] == tag@[0]);
                assert(tag@.subrange(0, 5)[1] == tag@[1]);
                assert(tag@.subrange(0, 5)[2] == tag@[2]);
                assert(tag@.subrange(0, 5)[3] == tag@[3]);
                assert(tag@.subrange(0, 5)[4] == tag@[4]);
            }
        }
        return Ok(None);
    }
    proof {
        assert(tag@.subrange(0, 5) =~= tag_prefix());
    }
    let ghost rest = tag@.subrange(5, tag@.len() as int);
    let sep = find_char(tag, 5, ':');
    let i = match sep {
        None => {
            proof {
                assert(forall|x: int| 0 <= x < rest.len() ==> rest[x] == tag@[x + 5]);
                lemma_first_index_of_none(rest, ':');
            }
            return Err(ParseError::Malformed(tag.to_owned()));
        },
        Some(i) => i,
    };
    proof {
        assert(forall|x: int| 0 <= x < rest.len() ==> rest[x] == tag@[x + 5]);
        lemma_first_index_of_some(rest, ':', i - 5);
    }
    let ghost kv = rest.subrange(i - 5 + 1, rest.len() as int);
    let eq = find_char(tag, i + 1, '=');
    let j = match eq {
        None => {
            proof {
                assert(forall|x: int| 0 <= x < kv.len() ==> kv[x] == tag@[x + i + 1]);
                lemma_first_index_of_none(kv, '=');
            }
            return Err(ParseError::Malformed(tag.to_owned()));
        },
        Some(j) => j,
    };
    proof {
        assert(forall|x: int| 0 <= x < kv.len() ==> kv[x] == tag@[x + i + 1]);
        lemma_first_index_of_some(kv, '=', j - (i + 1));
    }
    let job = tag.substring_char(5, i);
    let key = tag.substring_char(i + 1, j);
    let value = tag.substring_char(j + 1, n);
    proof {
        assert(job@ =~= rest.subrange(0, i - 5));
        assert(key@ =~= kv.subrange(0, j - (i + 1)));
        assert(value@ =~= kv.subrange(j - (i + 1) + 1, kv.len() as int));
    }
    if job.is_empty() {
        Ok(Some(TagDirective::GlobalLabel { key: key.to_owned(), value: value.to_owned() }))
    } else if str_eq(key, job) {
        Ok(Some(TagDirective::JobAddress { job: job.to_owned(), value: value.to_owned() }))
    } else {
        Ok(Some(TagDirective::JobLabel {
            job: job.to_owned(),
            key: key.to_owned(),
            value: value.to_owned(),
        }))
    }
}

} // verus!
