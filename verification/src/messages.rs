//! The text a person reads for each problem and error.

use vstd::prelude::*;

use crate::display::{join, join_strings};
use crate::error::DesignError;
use crate::model::views;
use crate::text::spec_decimal;
use crate::validation::{Problem, ProblemView};

verus! {

/// What `{:?}` writes for a string: the string in double quotes, with
/// quotes, backslashes and unprintable characters escaped.
pub uninterp spec fn debug_quoted(s: Seq<char>) -> Seq<char>;

/// `<str as Debug>::fmt`, through `format!("{:?}")`: the result is the
/// named quoted form of the argument.
#[verifier::external_body]
fn quoted(s: &str) -> (text: String)
    ensures
        text@ == debug_quoted(s@),
{
    format!("{s:?}")
}

/// `<std::io::Error as Display>::fmt`, through `to_string`. The text comes
/// from the operating system, so nothing is stated of it.
#[verifier::external_body]
fn io_text(error: &std::io::Error) -> String {
    error.to_string()
}

/// `<serde_json::Error as Display>::fmt`, through `to_string`: the parse
/// error and its position. The error is opaque here, so nothing is stated.
#[verifier::external_body]
fn json_error_text(error: &serde_json::Error) -> String {
    error.to_string()
}

/// `ids` written as a list of quoted strings: `["a", "b"]`.
pub open spec fn quoted_list(ids: Seq<Seq<char>>) -> Seq<char> {
    "["@ + join(ids.map_values(|id: Seq<char>| debug_quoted(id)), ", "@) + "]"@
}

/// The message of a problem.
pub open spec fn problem_text(p: ProblemView) -> Seq<char> {
    match p {
        ProblemView::UnknownVersion { found, supported } => "unsupported version "@ + found + "; supported version is "@
            + spec_decimal(supported as nat),
        ProblemView::UnknownTopLevelKey { key } => "unknown top-level key '"@ + key + "'"@,
        ProblemView::InvalidField { field, message } => "invalid field '"@ + field + "': "@ + message,
        ProblemView::InvalidId { id } => "invalid id '"@ + id + "': expected lowercase letters, digits, and inner hyphens"@,
        ProblemView::DuplicateId { id } => "duplicate id '"@ + id + "'"@,
        ProblemView::MissingReference { id, field, target } => "element '"@ + id + "' has "@ + field
            + " reference to missing element '"@ + target + "'"@,
        ProblemView::InvalidReference { id, field, target, expected } => "element '"@ + id + "' has "@ + field
            + " reference to '"@ + target + "'; expected "@ + expected,
        ProblemView::InvalidEdge { id } => "edge '"@ + id + "' connects two containers; at least one endpoint must be a node"@,
        ProblemView::ContainerCycle { ids } => "container parent cycle: "@ + quoted_list(ids),
        ProblemView::InvalidLayout { id, message } => "invalid layout for '"@ + id + "': "@ + message,
    }
}

/// The messages of the problems, in order.
pub open spec fn problem_texts(problems: Seq<ProblemView>) -> Seq<Seq<char>> {
    problems.map_values(|p: ProblemView| problem_text(p))
}

/// The ids written as a list of quoted strings.
fn quoted_ids(ids: &Vec<String>) -> (text: String)
    ensures
        text@ == quoted_list(ids.deep_view()),
{
    let mut parts: Vec<String> = Vec::new();
    for i in 0..ids.len()
        invariant
            parts.deep_view() == ids.deep_view().take(i as int).map_values(|id: Seq<char>| debug_quoted(id)),
    {
        let ghost before = parts.deep_view();
        parts.push(quoted(ids[i].as_str()));
        proof {
            assert(parts.deep_view() =~= before.push(debug_quoted(ids@[i as int]@)));
            assert(ids.deep_view().take(i + 1) =~= ids.deep_view().take(i as int).push(ids@[i as int]@));
        }
    }
    proof {
        assert(ids.deep_view().take(ids.len() as int) =~= ids.deep_view());
    }
    let mut text = String::from_str("[");
    let inner = join_strings(&parts, ", ");
    text.append(inner.as_str());
    text.append("]");
    proof {
        reveal_strlit("[");
        reveal_strlit("]");
        reveal_strlit(", ");
    }
    text
}

impl Problem {
    /// The problem as a sentence, as `sysy validate` prints it.
    pub fn message(&self) -> (text: String)
        ensures
            text@ == problem_text(self@),
    {
        let mut s: String;
        match self {
            Problem::UnknownVersion { found, supported } => {
                s = String::from_str("unsupported version ");
                s.append(found.as_str());
                s.append("; supported version is ");
                let digits = crate::text::decimal(*supported);
                s.append(digits.as_str());
                proof {
                    reveal_strlit("unsupported version ");
                    reveal_strlit("; supported version is ");
                    assert(s@ == problem_text(self@));
                }
            },
            Problem::UnknownTopLevelKey { key } => {
                s = String::from_str("unknown top-level key '");
                s.append(key.as_str());
                s.append("'");
                proof {
                    reveal_strlit("unknown top-level key '");
                    reveal_strlit("'");
                    assert(s@ == problem_text(self@));
                }
            },
            Problem::InvalidField { field, message } => {
                s = String::from_str("invalid field '");
                s.append(field.as_str());
                s.append("': ");
                s.append(message.as_str());
                proof {
                    reveal_strlit("invalid field '");
                    reveal_strlit("': ");
                    assert(s@ == problem_text(self@));
                }
            },
            Problem::InvalidId { id } => {
                s = String::from_str("invalid id '");
                s.append(id.as_str());
                s.append("': expected lowercase letters, digits, and inner hyphens");
                proof {
                    reveal_strlit("invalid id '");
                    reveal_strlit("': expected lowercase letters, digits, and inner hyphens");
                    assert(s@ == problem_text(self@));
                }
            },
            Problem::DuplicateId { id } => {
                s = String::from_str("duplicate id '");
                s.append(id.as_str());
                s.append("'");
                proof {
                    reveal_strlit("duplicate id '");
                    reveal_strlit("'");
                    assert(s@ == problem_text(self@));
                }
            },
            Problem::MissingReference { id, field, target } => {
                s = String::from_str("element '");
                s.append(id.as_str());
                s.append("' has ");
                s.append(field);
                s.append(" reference to missing element '");
                s.append(target.as_str());
                s.append("'");
                proof {
                    reveal_strlit("element '");
                    reveal_strlit("' has ");
                    reveal_strlit(" reference to missing element '");
                    reveal_strlit("'");
                    assert(s@ == problem_text(self@));
                }
            },
            Problem::InvalidReference { id, field, target, expected } => {
                s = String::from_str("element '");
                s.append(id.as_str());
                s.append("' has ");
                s.append(field);
                s.append(" reference to '");
                s.append(target.as_str());
                s.append("'; expected ");
                s.append(expected);
                proof {
                    reveal_strlit("element '");
                    reveal_strlit("' has ");
                    reveal_strlit(" reference to '");
                    reveal_strlit("'; expected ");
                    assert(s@ == problem_text(self@));
                }
            },
            Problem::InvalidEdge { id } => {
                s = String::from_str("edge '");
                s.append(id.as_str());
                s.append("' connects two containers; at least one endpoint must be a node");
                proof {
                    reveal_strlit("edge '");
                    reveal_strlit("' connects two containers; at least one endpoint must be a node");
                    assert(s@ == problem_text(self@));
                }
            },
            Problem::ContainerCycle { ids } => {
                s = String::from_str("container parent cycle: ");
                let list = quoted_ids(ids);
                s.append(list.as_str());
                proof {
                    reveal_strlit("container parent cycle: ");
                    assert(s@ == problem_text(self@));
                }
            },
            Problem::InvalidLayout { id, message } => {
                s = String::from_str("invalid layout for '");
                s.append(id.as_str());
                s.append("': ");
                s.append(message);
                proof {
                    reveal_strlit("invalid layout for '");
                    reveal_strlit("': ");
                    assert(s@ == problem_text(self@));
                }
            },
        }
        s
    }
}

/// The message of an error: what failed, then its cause; for validation,
/// every problem on a line of its own. Texts that come from outside (the
/// operating system, the JSON parser) are not modelled, so any text stands
/// in for them.
pub open spec fn error_text(e: DesignError, text: Seq<char>) -> bool {
    match e {
        DesignError::Io(_) => exists|cause: Seq<char>| text == "design file I/O failed: "@ + cause,
        DesignError::NotFound { kind, id } => text == kind@ + " '"@ + id@ + "' does not exist"@,
        DesignError::Json(_) => exists|cause: Seq<char>| text == "invalid JSON: "@ + cause,
        DesignError::Validation(problems) => text == "invalid design:\n"@ + join(problem_texts(views(problems@)), "\n"@),
    }
}

impl DesignError {
    /// The error as a person reads it.
    pub fn message(&self) -> (text: String)
        ensures
            error_text(*self, text@),
    {
        match self {
            DesignError::Io(error) => {
                let cause = io_text(error);
                let mut s = String::from_str("design file I/O failed: ");
                s.append(cause.as_str());
                proof {
                    reveal_strlit("design file I/O failed: ");
                    assert(s@ == "design file I/O failed: "@ + cause@);
                }
                s
            },
            DesignError::NotFound { kind, id } => {
                let mut s = String::from_str(kind);
                s.append(" '");
                s.append(id.as_str());
                s.append("' does not exist");
                proof {
                    reveal_strlit(" '");
                    reveal_strlit("' does not exist");
                }
                s
            },
            DesignError::Json(error) => {
                let cause = json_error_text(error);
                let mut s = String::from_str("invalid JSON: ");
                s.append(cause.as_str());
                proof {
                    reveal_strlit("invalid JSON: ");
                    assert(s@ == "invalid JSON: "@ + cause@);
                }
                s
            },
            DesignError::Validation(problems) => {
                let mut lines: Vec<String> = Vec::new();
                let ghost ps = views(problems@);
                for i in 0..problems.len()
                    invariant
                        ps == views(problems@),
                        lines.deep_view() == problem_texts(ps.take(i as int)),
                {
                    let ghost before = lines.deep_view();
                    let line = problems[i].message();
                    lines.push(line);
                    proof {
                        assert(lines.deep_view() =~= before.push(line@));
                        assert(ps[i as int] == problems@[i as int]@);
                        assert(ps.take(i + 1) =~= ps.take(i as int).push(ps[i as int]));
                        assert(problem_texts(ps.take(i + 1)) =~= problem_texts(ps.take(i as int)).push(problem_text(ps[i as int])));
                    }
                }
                proof {
                    assert(ps.take(problems.len() as int) =~= ps);
                }
                let mut s = String::from_str("invalid design:\n");
                let body = join_strings(&lines, "\n");
                s.append(body.as_str());
                proof {
                    reveal_strlit("invalid design:\n");
                    reveal_strlit("\n");
                    assert(s@ == "invalid design:\n"@ + join(lines.deep_view(), "\n"@));
                }
                s
            },
        }
    }
}

} // verus!
