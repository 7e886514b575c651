//! The selection resolver: renders notes as fuzzy-searchable display
//! lines (`"<title> | <relpath>"`), and resolves one chosen line back to
//! its title and relpath, then to a path under the vault root.
//!
//! The resolver never consults the vector store: it always works from a
//! fresh enumeration of the vault's notes.

use vstd::prelude::*;
use vstd::string::*;
use crate::SelectError;

verus! {

/// A note as the enumerator lists it: display title and identity.
#[derive(Debug)]
pub struct NoteRecord {
    /// The note's human-facing title.
    pub title: String,
    /// The note's relpath: its identity within the vault.
    pub relpath: String,
}

/// The fixed delimiter `" | "` stands at position `i` of the line.
pub open spec fn delim_at(s: Seq<char>, i: int) -> bool {
    &&& 0 <= i
    &&& i + 3 <= s.len()
    &&& s[i] == ' '
    &&& s[i + 1] == '|'
    &&& s[i + 2] == ' '
}

/// The line splits into exactly a title part and a relpath part: the
/// delimiter stands at exactly one position.
pub open spec fn unique_delim(s: Seq<char>) -> bool {
    &&& exists|i: int| #[trigger] delim_at(s, i)
    &&& forall|i: int, j: int| #[trigger] delim_at(s, i) && #[trigger] delim_at(s, j) ==> i == j
}

/// The one position of the delimiter, on a line that has exactly one.
pub open spec fn the_delim(s: Seq<char>) -> int {
    choose|i: int| delim_at(s, i)
}

/// One display line: the title, the delimiter, the relpath.
pub fn display_line(title: &str, relpath: &str) -> (r: String)
    ensures
        r@ == title@ + seq![' ', '|', ' '] + relpath@,
{
    let mut s = String::from_str(title);
    s.append(" | ");
    s.append(relpath);
    proof {
        reveal_strlit(" | ");
        assert(" | "@ =~= seq![' ', '|', ' ']);
        assert(s@ =~= title@ + seq![' ', '|', ' '] + relpath@);
    }
    s
}

/// The display lines of a fresh enumeration, in enumeration order.
pub fn display_lines(notes: &Vec<NoteRecord>) -> (r: Vec<String>)
    ensures
        r@.len() == notes@.len(),
        forall|i: int|
            0 <= i < notes@.len() ==> (#[trigger] r@[i])@ == notes@[i].title@ + seq![
                ' ',
                '|',
                ' ',
            ] + notes@[i].relpath@,
{
    let n = notes.len();
    let mut lines: Vec<String> = Vec::new();
    for k in 0..n
        invariant
            n == notes@.len(),
            lines@.len() == k,
            forall|i: int|
                0 <= i < k ==> (#[trigger] lines@[i])@ == notes@[i].title@ + seq![
                    ' ',
                    '|',
                    ' ',
                ] + notes@[i].relpath@,
    {
        let line = display_line(notes[k].title.as_str(), notes[k].relpath.as_str());
        lines.push(line);
    }
    lines
}

/// Splits a chosen line into its title part and its relpath part on the
/// fixed delimiter. Succeeds exactly when the delimiter stands at exactly
/// one position of the line; everything else — no delimiter, or several —
/// is `SelectError::MalformedSelection`.
pub fn parse_selection(line: &str) -> (r: Result<NoteRecord, SelectError>)
    ensures
        match r {
            Ok(p) => unique_delim(line@) && p.title@ == line@.subrange(0, the_delim(line@))
                && p.relpath@ == line@.subrange(the_delim(line@) + 3, line@.len() as int),
            Err(e) => e == SelectError::MalformedSelection && !unique_delim(line@),
        },
{
    let n = line.unicode_len();
    let mut first: Option<usize> = None;
    if n >= 3 {
        let lim = n - 2;
        for i in 0..lim
            invariant
                n == line@.len(),
                lim == n - 2,
                match first {
                    None => forall|t: int| 0 <= t < i ==> !(#[trigger] delim_at(line@, t)),
                    Some(f) => delim_at(line@, f as int) && f < i && (forall|t: int|
                        0 <= t < i && t != f ==> !(#[trigger] delim_at(line@, t))),
                },
        {
            let hit = line.get_char(i) == ' ' && line.get_char(i + 1) == '|' && line.get_char(
                i + 2,
            ) == ' ';
            match first {
                None => {
                    if hit {
                        first = Some(i);
                    } else {
                        proof {
                            assert(!delim_at(line@, i as int));
                        }
                    }
                },
                Some(f) => {
                    if hit {
                        proof {
                            assert(delim_at(line@, i as int));
                            assert(delim_at(line@, f as int));
                            assert(!unique_delim(line@));
                        }
                        return Err(SelectError::MalformedSelection);
                    } else {
                        proof {
                            assert(!delim_at(line@, i as int));
                        }
                    }
                },
            }
        }
    }
    proof {
        assert forall|t: int| line@.len() - 2 <= t implies !delim_at(line@, t) by {}
    }
    match first {
        None => {
            proof {
                if unique_delim(line@) {
                    let w = choose|w: int| delim_at(line@, w);
                    assert(!delim_at(line@, w));
                }
            }
            Err(SelectError::MalformedSelection)
        },
        Some(f) => {
            proof {
                assert(delim_at(line@, f as int));
                assert forall|i: int, j: int|
                    #[trigger] delim_at(line@, i) && #[trigger] delim_at(line@, j) implies i
                    == j by {
                    assert(i == f as int && j == f as int);
                }
                assert(unique_delim(line@));
                assert(the_delim(line@) == f as int);
            }
            let title = line.substring_char(0, f).to_owned();
            let relpath = line.substring_char(f + 3, n).to_owned();
            Ok(NoteRecord { title, relpath })
        },
    }
}

/// Resolves what the fuzzy matcher handed back: no committed selection is
/// `SelectError::NoSelection`; a committed line is split on the delimiter
/// as `parse_selection` says.
pub fn resolve_selection(selection: Option<String>) -> (r: Result<NoteRecord, SelectError>)
    ensures
        match selection {
            None => r == Err::<NoteRecord, SelectError>(SelectError::NoSelection),
            Some(line) => match r {
                Ok(p) => unique_delim(line@) && p.title@ == line@.subrange(0, the_delim(line@))
                    && p.relpath@ == line@.subrange(the_delim(line@) + 3, line@.len() as int),
                Err(e) => e == SelectError::MalformedSelection && !unique_delim(line@),
            },
        },
{
    match selection {
        None => Err(SelectError::NoSelection),
        Some(line) => parse_selection(line.as_str()),
    }
}

/// The absolute location of a resolved note: the vault root and the
/// relpath, joined with exactly one separator between them.
pub fn resolved_path(vault_dir: &str, relpath: &str) -> (r: String)
    ensures
        r@ == (if vault_dir@.len() > 0 && vault_dir@.last() == '/' {
            vault_dir@ + relpath@
        } else {
            vault_dir@ + seq!['/'] + relpath@
        }),
{
    let n = vault_dir.unicode_len();
    let mut s = String::from_str(vault_dir);
    if n == 0 || vault_dir.get_char(n - 1) != '/' {
        s.append("/");
        proof {
            reveal_strlit("/");
            assert("/"@ =~= seq!['/']);
        }
    }
    s.append(relpath);
    proof {
        if vault_dir@.len() > 0 && vault_dir@.last() == '/' {
            assert(s@ =~= vault_dir@ + relpath@);
        } else {
            assert(s@ =~= vault_dir@ + seq!['/'] + relpath@);
        }
    }
    s
}

/// A display line made from a title and relpath that contain no `'|'`
/// resolves back to exactly that title and relpath: the delimiter stands
/// only where the renderer put it. (A title holding the delimiter itself
/// breaks this — the format invariant the renderer relies on.)
pub proof fn lemma_display_line_resolves(t: Seq<char>, r: Seq<char>)
    requires
        forall|i: int| 0 <= i < t.len() ==> t[i] != '|',
        forall|i: int| 0 <= i < r.len() ==> r[i] != '|',
    ensures
        unique_delim(t + seq![' ', '|', ' '] + r),
        the_delim(t + seq![' ', '|', ' '] + r) == t.len(),
        (t + seq![' ', '|', ' '] + r).subrange(0, t.len() as int) == t,
        (t + seq![' ', '|', ' '] + r).subrange(
            t.len() + 3 as int,
            (t + seq![' ', '|', ' '] + r).len() as int,
        ) == r,
{
    let line = t + seq![' ', '|', ' '] + r;
    assert(delim_at(line, t.len() as int));
    assert forall|i: int| #[trigger] delim_at(line, i) implies i == t.len() by {
        assert(line[i + 1] == '|');
        if i + 1 < t.len() {
            assert(line[i + 1] == t[i + 1]);
        } else if i + 1 > t.len() + 2 {
            assert(line[i + 1] == r[i + 1 - (t.len() + 3)]);
        } else if i + 1 == t.len() {
            assert(line[i + 1] == ' ');
        } else if i + 1 == t.len() + 2 {
            assert(line[i + 1] == ' ');
        }
    }
    assert(unique_delim(line));
    assert(the_delim(line) == t.len());
    assert(line.subrange(0, t.len() as int) =~= t);
    assert(line.subrange(t.len() + 3 as int, line.len() as int) =~= r);
}

} // verus!
