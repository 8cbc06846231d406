//! Context resolver: classifies a cursor position inside raw manifest text.
//!
//! Offsets are character offsets into the text. The resolver finds the
//! enclosing section header, splits the cursor's line at the cursor, and
//! classifies the position as package-name or version-detail input inside
//! a dependency table, or as unsupported or outside such a table.

use vstd::prelude::*;
use vstd::string::StrSliceExecFns;
use crate::text::{scan_char, lemma_scan_char_bounds, trimmed, trim_spaces, find_char_from,
    str_ends_with};

verus! {

/// Offsets past the end of the text are treated as the text's end.
pub open spec fn clamp_offset(s: Seq<char>, offset: int) -> int {
    if offset > s.len() {
        s.len() as int
    } else {
        offset
    }
}

/// Start of the line containing position `i`: the position right after the
/// nearest line break strictly before `i`, or the start of the text.
pub open spec fn line_start(s: Seq<char>, i: int) -> int
    decreases i,
{
    if 0 < i <= s.len() {
        if s[i - 1] == '\n' {
            i
        } else {
            line_start(s, i - 1)
        }
    } else {
        0
    }
}

pub proof fn lemma_line_start_bounds(s: Seq<char>, i: int)
    requires
        0 <= i <= s.len(),
    ensures
        0 <= line_start(s, i) <= i,
    decreases i,
{
    if 0 < i && s[i - 1] != '\n' {
        lemma_line_start_bounds(s, i - 1);
    }
}

/// The text from the start of the cursor's line up to the cursor.
pub open spec fn line_left(s: Seq<char>, offset: int) -> Seq<char> {
    let off = clamp_offset(s, offset);
    s.subrange(line_start(s, off), off)
}

/// The text from the cursor up to the end of the cursor's line.
pub open spec fn line_right(s: Seq<char>, offset: int) -> Seq<char> {
    let off = clamp_offset(s, offset);
    s.subrange(off, scan_char(s, '\n', off))
}

/// Start of the nearest section header line strictly before position
/// `off`: the latest line start holding `[`, or -1 if there is none.
pub open spec fn header_start(s: Seq<char>, off: int) -> int
    decreases off,
{
    if 0 < off <= s.len() {
        if s[off - 1] == '[' && (off - 1 == 0 || s[off - 2] == '\n') {
            off - 1
        } else {
            header_start(s, off - 1)
        }
    } else {
        -1
    }
}

pub proof fn lemma_header_start_bounds(s: Seq<char>, off: int)
    requires
        0 <= off <= s.len(),
    ensures
        -1 <= header_start(s, off) < off,
        header_start(s, off) >= 0 ==> s[header_start(s, off)] == '[',
    decreases off,
{
    if 0 < off && !(s[off - 1] == '[' && (off - 1 == 0 || s[off - 2] == '\n')) {
        lemma_header_start_bounds(s, off - 1);
    }
}

/// The inner name of the enclosing section header, if any.
///
/// The header is the nearest line before the cursor that starts with `[`;
/// it must end with `]` directly before its line break, and that line
/// break must lie before the cursor. Otherwise there is no section.
pub open spec fn group_of(s: Seq<char>, offset: int) -> Option<Seq<char>> {
    let off = clamp_offset(s, offset);
    let h = header_start(s, off);
    if h < 0 {
        Option::None
    } else {
        let j = scan_char(s, '\n', h + 1);
        if j < s.len() && j < off && h + 2 <= j && s[j - 1] == ']' {
            Option::Some(s.subrange(h + 1, j - 1))
        } else {
            Option::None
        }
    }
}

/// Whether the cursor sits inside a dependency table: a section whose
/// name ends with "dependencies".
pub open spec fn is_dep_section(s: Seq<char>, offset: int) -> bool {
    group_of(s, offset) matches Some(g) && "dependencies"@.is_suffix_of(g)
}

/// Specification-level completion context classification.
pub enum CtxKind {
    /// Outside any dependency table.
    Outside,
    /// On a package-name token; `prefix` is the typed text left of the cursor.
    PackageName { prefix: Seq<char> },
    /// Inside a version string; `name` is the package the line declares and
    /// `prefix` the typed version text. `append_quote` says whether a
    /// suggestion must carry its own closing quote.
    VersionDetail { name: Seq<char>, prefix: Seq<char>, append_quote: bool },
    /// Inside a dependency table but in a form the resolver does not
    /// support, such as an inline table after `=`.
    Unsupported,
}

/// The classification of a cursor position inside manifest text.
pub open spec fn kind_of(s: Seq<char>, offset: int) -> CtxKind {
    if !is_dep_section(s, offset) {
        CtxKind::Outside
    } else {
        let lf = line_left(s, offset);
        let rt = line_right(s, offset);
        let e = scan_char(lf, '=', 0);
        if e >= lf.len() {
            CtxKind::PackageName { prefix: lf }
        } else {
            let nm = trimmed(lf.subrange(0, e));
            let rest = trimmed(lf.subrange(e + 1, lf.len() as int));
            if rest.len() > 0 && rest[0] == '{' {
                CtxKind::Unsupported
            } else if rest.len() > 0 && rest[0] == '"' {
                CtxKind::VersionDetail {
                    name: nm,
                    prefix: rest.drop_first(),
                    append_quote: !(rt.len() > 0 && rt[0] == '"'),
                }
            } else {
                CtxKind::Unsupported
            }
        }
    }
}

fn line_start_at(s: &str, off: usize) -> (r: usize)
    requires
        off <= s@.len(),
    ensures
        r as int == line_start(s@, off as int),
{
    let mut p: usize = off;
    while p > 0
        invariant
            p <= off,
            off <= s@.len(),
            line_start(s@, off as int) == line_start(s@, p as int),
        decreases p,
    {
        if s.get_char(p - 1) == '\n' {
            return p;
        }
        p -= 1;
    }
    0
}

/// The segments of the cursor's line to the left and to the right of the
/// cursor, with line breaks excluded.
pub fn get_line(input: &str, offset: usize) -> (r: (String, String))
    ensures
        r.0@ == line_left(input@, offset as int),
        r.1@ == line_right(input@, offset as int),
{
    let n: usize = input.unicode_len();
    let off: usize = if offset > n {
        n
    } else {
        offset
    };
    let ls: usize = line_start_at(input, off);
    let le: usize = find_char_from(input, '\n', off);
    proof {
        lemma_line_start_bounds(input@, off as int);
        lemma_scan_char_bounds(input@, '\n', off as int);
    }
    let left = input.substring_char(ls, off).to_owned();
    let right = input.substring_char(off, le).to_owned();
    (left, right)
}

fn header_start_at(s: &str, off: usize) -> (r: Option<usize>)
    requires
        off <= s@.len(),
    ensures
        (r matches Some(h) ==> header_start(s@, off as int) == h as int),
        (r is None ==> header_start(s@, off as int) == -1),
{
    let mut p: usize = off;
    while p > 0
        invariant
            p <= off,
            off <= s@.len(),
            header_start(s@, off as int) == header_start(s@, p as int),
        decreases p,
    {
        if s.get_char(p - 1) == '[' && (p - 1 == 0 || s.get_char(p - 2) == '\n') {
            return Option::Some(p - 1);
        }
        p -= 1;
    }
    Option::None
}

/// The inner name of the section enclosing the cursor, or none when no
/// well-formed header line precedes the cursor.
pub fn find_group(input: &str, offset: usize) -> (r: Option<String>)
    ensures
        (r is Some <==> group_of(input@, offset as int) is Some),
        (r matches Some(g) ==> group_of(input@, offset as int) == Option::Some(g@)),
{
    let n: usize = input.unicode_len();
    let off: usize = if offset > n {
        n
    } else {
        offset
    };
    match header_start_at(input, off) {
        Option::None => Option::None,
        Option::Some(h) => {
            proof {
                lemma_header_start_bounds(input@, off as int);
                lemma_scan_char_bounds(input@, '\n', h + 1 as int);
            }
            let j: usize = find_char_from(input, '\n', h + 1);
            if j < n && j < off && h + 2 <= j && input.get_char(j - 1) == ']' {
                Option::Some(input.substring_char(h + 1, j - 1).to_owned())
            } else {
                Option::None
            }
        },
    }
}

/// The executable completion context handed to the completion engine.
pub enum ContextKind {
    Outside,
    PackageName { prefix: String },
    VersionDetail { name: String, prefix: String, append_quote: bool },
    Unsupported,
}

/// The specification value an executable context stands for.
pub open spec fn kind_view(k: ContextKind) -> CtxKind {
    match k {
        ContextKind::Outside => CtxKind::Outside,
        ContextKind::PackageName { prefix } => CtxKind::PackageName { prefix: prefix@ },
        ContextKind::VersionDetail { name, prefix, append_quote } => CtxKind::VersionDetail {
            name: name@,
            prefix: prefix@,
            append_quote,
        },
        ContextKind::Unsupported => CtxKind::Unsupported,
    }
}

/// A classified cursor position: the enclosing section, the cursor's line
/// split at the cursor, and the classification itself.
pub struct CompletionContext {
    pub section: Option<String>,
    pub left: String,
    pub right: String,
    pub kind: ContextKind,
}

/// Classifies the cursor position `offset` inside `text`.
pub fn resolve(text: &str, offset: usize) -> (r: CompletionContext)
    ensures
        r.left@ == line_left(text@, offset as int),
        r.right@ == line_right(text@, offset as int),
        (r.section is Some <==> group_of(text@, offset as int) is Some),
        (r.section matches Some(g) ==> group_of(text@, offset as int) == Option::Some(g@)),
        kind_view(r.kind) == kind_of(text@, offset as int),
{
    let section = find_group(text, offset);
    let lr = get_line(text, offset);
    let left = lr.0;
    let right = lr.1;
    let kind: ContextKind = match &section {
        Option::None => ContextKind::Outside,
        Option::Some(g) => {
            if !str_ends_with(g.as_str(), "dependencies") {
                ContextKind::Outside
            } else {
                let llen: usize = left.as_str().unicode_len();
                let e: usize = find_char_from(left.as_str(), '=', 0);
                proof {
                    lemma_scan_char_bounds(left@, '=', 0);
                }
                if e >= llen {
                    ContextKind::PackageName { prefix: left.clone() }
                } else {
                    let nm = trim_spaces(left.as_str().substring_char(0, e));
                    let rest = trim_spaces(left.as_str().substring_char(e + 1, llen));
                    let rlen: usize = rest.unicode_len();
                    if rlen > 0 && rest.get_char(0) == '{' {
                        ContextKind::Unsupported
                    } else if rlen > 0 && rest.get_char(0) == '"' {
                        let prefix = rest.substring_char(1, rlen).to_owned();
                        proof {
                            assert(prefix@ =~= rest@.drop_first());
                        }
                        let rtlen: usize = right.as_str().unicode_len();
                        let append_quote: bool = !(rtlen > 0 && right.as_str().get_char(0)
                            == '"');
                        ContextKind::VersionDetail { name: nm.to_owned(), prefix, append_quote }
                    } else {
                        ContextKind::Unsupported
                    }
                }
            }
        },
    };
    CompletionContext { section, left, right, kind }
}

} // verus!
