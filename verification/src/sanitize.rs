//! Turning a note title into a file name: trim, lowercase, replace every
//! non-alphanumeric character by a dash, then collapse the dashes — split
//! on `'-'`, drop the empty fragments, and join the rest with single
//! dashes, so the result neither starts nor ends with a dash nor holds
//! two in a row.

use vstd::prelude::*;
use vstd::string::*;
use crate::text::push_char;

verus! {

/// What `str::trim` returns for these characters.
pub uninterp spec fn trimmed_of(s: Seq<char>) -> Seq<char>;

/// What `str::to_lowercase` returns for these characters.
pub uninterp spec fn lowercase_of(s: Seq<char>) -> Seq<char>;

/// What `char::is_alphanumeric` returns for this character.
pub uninterp spec fn is_alphanumeric_char(c: char) -> bool;

/// Relies on `str::trim`: the result depends on the characters alone.
#[verifier::external_body]
fn str_trim<'a>(s: &'a str) -> (r: &'a str)
    ensures
        r@ == trimmed_of(s@),
{
    s.trim()
}

/// Relies on `str::to_lowercase`: the result depends on the characters
/// alone.
#[verifier::external_body]
fn str_to_lowercase(s: &str) -> (r: String)
    ensures
        r@ == lowercase_of(s@),
{
    s.to_lowercase()
}

/// Relies on `char::is_alphanumeric`: a property of the character alone.
#[verifier::external_body]
fn char_is_alphanumeric(c: char) -> (r: bool)
    ensures
        r == is_alphanumeric_char(c),
{
    c.is_alphanumeric()
}

/// Every non-alphanumeric character replaced by a dash.
pub open spec fn dashed(s: Seq<char>) -> Seq<char> {
    Seq::new(
        s.len(),
        |i: int|
            if is_alphanumeric_char(s[i]) {
                s[i]
            } else {
                '-'
            },
    )
}

/// The fragments between the dashes, in order; empty fragments kept.
pub open spec fn dash_split(s: Seq<char>) -> Seq<Seq<char>>
    decreases s.len(),
{
    if s.len() == 0 {
        seq![Seq::<char>::empty()]
    } else {
        let prev = dash_split(s.drop_last());
        if s.last() == '-' {
            prev.push(Seq::empty())
        } else {
            prev.update(prev.len() - 1, prev.last().push(s.last()))
        }
    }
}

/// The fragments joined with single dashes.
pub open spec fn dash_join(ws: Seq<Seq<char>>) -> Seq<char>
    decreases ws.len(),
{
    if ws.len() == 0 {
        Seq::empty()
    } else if ws.len() == 1 {
        ws[0]
    } else {
        dash_join(ws.drop_last()) + seq!['-'] + ws.last()
    }
}

/// Keeps the fragments that still hold characters.
pub open spec fn nonempty_fragment() -> spec_fn(Seq<char>) -> bool {
    |w: Seq<char>| w.len() > 0
}

/// What the sanitized form of a title is: the title trimmed and
/// lowercased, every other character made a dash, and the dashes
/// collapsed by split, drop-empty and join.
pub open spec fn sanitize_spec(title: Seq<char>) -> Seq<char> {
    let mapped = dashed(lowercase_of(trimmed_of(title)));
    dash_join(dash_split(mapped).filter(nonempty_fragment()))
}

/// A title as a file-name stem: `sanitize_spec` of its characters.
pub fn sanitize_title(title: &str) -> (r: String)
    ensures
        r@ == sanitize_spec(title@),
{
    let lower = str_to_lowercase(str_trim(title));
    let ghost mapped = dashed(lower@);

    // Replace every non-alphanumeric character by a dash.
    let n = lower.as_str().unicode_len();
    let mut dashes = String::new();
    for k in 0..n
        invariant
            n == lower@.len(),
            dashes@ == mapped.take(k as int),
            mapped == dashed(lower@),
    {
        let c = lower.as_str().get_char(k);
        if char_is_alphanumeric(c) {
            push_char(&mut dashes, c);
        } else {
            push_char(&mut dashes, '-');
        }
        proof {
            assert(dashes@ =~= mapped.take(k + 1 as int));
        }
    }
    proof {
        assert(mapped.take(n as int) =~= mapped);
    }

    // Split on the dashes.
    let mut parts: Vec<String> = Vec::new();
    let mut cur = String::new();
    proof {
        assert(dash_split(mapped.take(0)) =~= crate::store::ids_view(parts@).push(cur@));
    }
    for k in 0..n
        invariant
            n == mapped.len(),
            mapped == dashed(lower@),
            dashes@ == mapped,
            dash_split(mapped.take(k as int)) == crate::store::ids_view(parts@).push(cur@),
    {
        let c = dashes.as_str().get_char(k);
        let ghost pre_parts = crate::store::ids_view(parts@);
        let ghost pre_cur = cur@;
        if c == '-' {
            parts.push(cur);
            cur = String::new();
            proof {
                assert(mapped.take(k + 1 as int).drop_last() =~= mapped.take(k as int));
                assert(crate::store::ids_view(parts@) =~= pre_parts.push(pre_cur));
                assert(dash_split(mapped.take(k + 1 as int)) =~= crate::store::ids_view(
                    parts@,
                ).push(cur@));
            }
        } else {
            push_char(&mut cur, c);
            proof {
                assert(mapped.take(k + 1 as int).drop_last() =~= mapped.take(k as int));
                let prev = dash_split(mapped.take(k as int));
                assert(dash_split(mapped.take(k + 1 as int)) == prev.update(
                    prev.len() - 1,
                    prev.last().push(c),
                ));
                assert(dash_split(mapped.take(k + 1 as int)) =~= crate::store::ids_view(
                    parts@,
                ).push(cur@));
            }
        }
    }
    parts.push(cur);
    let ghost all_parts = crate::store::ids_view(parts@);
    proof {
        assert(mapped.take(n as int) =~= mapped);
        assert(all_parts =~= dash_split(mapped));
    }

    // Drop the empty fragments.
    let ghost keep = nonempty_fragment();
    let mut words: Vec<String> = Vec::new();
    let np = parts.len();
    proof {
        assert(all_parts.take(0) =~= Seq::<Seq<char>>::empty());
        reveal(Seq::filter);
        assert(crate::store::ids_view(words@) =~= all_parts.take(0).filter(keep));
    }
    for j in 0..np
        invariant
            np == parts@.len(),
            keep == nonempty_fragment(),
            all_parts == crate::store::ids_view(parts@),
            crate::store::ids_view(words@) == all_parts.take(j as int).filter(keep),
    {
        let ghost pre_words = crate::store::ids_view(words@);
        proof {
            reveal(Seq::filter);
            assert(all_parts.take(j + 1 as int).drop_last() =~= all_parts.take(j as int));
            assert(all_parts.take(j + 1 as int).last() == all_parts[j as int]);
        }
        if !parts[j].as_str().is_empty() {
            let w = parts[j].clone();
            words.push(w);
            proof {
                reveal(Seq::filter);
                assert(w@ == all_parts[j as int]);
                assert(crate::store::ids_view(words@) =~= pre_words.push(all_parts[j as int]));
                assert(all_parts.take(j + 1 as int).filter(keep) =~= all_parts.take(
                    j as int,
                ).filter(keep).push(all_parts[j as int]));
            }
        } else {
            proof {
                reveal(Seq::filter);
                assert(crate::store::ids_view(words@) =~= pre_words);
                assert(all_parts.take(j + 1 as int).filter(keep) =~= all_parts.take(
                    j as int,
                ).filter(keep));
            }
        }
    }
    let ghost kept = all_parts.filter(keep);
    proof {
        assert(all_parts.take(np as int) =~= all_parts);
        assert(crate::store::ids_view(words@) =~= kept);
    }

    // Join the fragments with single dashes.
    let mut out = String::new();
    let nw = words.len();
    proof {
        assert(dash_join(kept.take(0)) =~= out@);
    }
    for j in 0..nw
        invariant
            nw == words@.len(),
            kept == crate::store::ids_view(words@),
            out@ == dash_join(kept.take(j as int)),
    {
        if j > 0 {
            push_char(&mut out, '-');
        }
        out.append(words[j].as_str());
        proof {
            assert(kept.take(j + 1 as int).drop_last() =~= kept.take(j as int));
            assert(kept.take(j + 1 as int).last() == kept[j as int]);
            if j == 0 {
                assert(dash_join(kept.take(1)) == kept[0]);
                assert(out@ =~= dash_join(kept.take(1)));
            } else {
                assert(out@ =~= dash_join(kept.take(j as int)) + seq!['-'] + kept[j as int]);
                assert(out@ =~= dash_join(kept.take(j + 1 as int)));
            }
        }
    }
    proof {
        assert(kept.take(nw as int) =~= kept);
        assert(out@ == sanitize_spec(title@));
    }
    out
}

} // verus!
