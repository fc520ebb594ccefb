//! Character-level helpers: case folding through the standard library's
//! Unicode lowercasing (named, not modeled), whitespace trimming over the
//! Unicode white-space set, and splitting a comma-separated list, each with
//! a spec-level model.

use vstd::prelude::*;

verus! {

/// The Unicode lowercasing of a sequence of characters, as
/// `str::to_lowercase` computes it. The full mapping takes pages to state,
/// so it is only named here: everything proved about it holds whatever the
/// mapping is, and the tests run the real one.
pub uninterp spec fn lower_of(s: Seq<char>) -> Seq<char>;

/// Relies on `str::to_lowercase`: the Unicode lowercase mapping of the
/// string, which depends on its characters alone.
#[verifier::external_body]
fn lowercase(s: &str) -> (r: String)
    ensures
        r@ == lower_of(s@),
{
    s.to_lowercase()
}

/// Whether two strings hold the same characters once both are folded to
/// lower case.
pub fn eq_lowercase(a: &str, b: &str) -> (r: bool)
    ensures
        r == (lower_of(a@) == lower_of(b@)),
{
    lowercase(a) == lowercase(b)
}

/// The characters that trimming removes: the Unicode white-space set, the
/// one `char::is_whitespace` (and so `str::trim`) goes by.
pub open spec fn is_white_space(c: char) -> bool {
    c == '\u{0009}' || c == '\u{000A}' || c == '\u{000B}' || c == '\u{000C}' || c == '\u{000D}'
        || c == '\u{0020}' || c == '\u{0085}' || c == '\u{00A0}' || c == '\u{1680}'
        || c == '\u{2000}' || c == '\u{2001}' || c == '\u{2002}' || c == '\u{2003}'
        || c == '\u{2004}' || c == '\u{2005}' || c == '\u{2006}' || c == '\u{2007}'
        || c == '\u{2008}' || c == '\u{2009}' || c == '\u{200A}' || c == '\u{2028}'
        || c == '\u{2029}' || c == '\u{202F}' || c == '\u{205F}' || c == '\u{3000}'
}

/// The sequence with its leading white space removed.
pub open spec fn trim_start_spec(s: Seq<char>) -> Seq<char>
    decreases s.len(),
{
    if s.len() > 0 && is_white_space(s[0]) {
        trim_start_spec(s.drop_first())
    } else {
        s
    }
}

/// The sequence with its trailing white space removed.
pub open spec fn trim_end_spec(s: Seq<char>) -> Seq<char>
    decreases s.len(),
{
    if s.len() > 0 && is_white_space(s.last()) {
        trim_end_spec(s.drop_last())
    } else {
        s
    }
}

/// The sequence with both leading and trailing white space removed.
pub open spec fn trim_spec(s: Seq<char>) -> Seq<char> {
    trim_end_spec(trim_start_spec(s))
}

/// The pieces of `s` between its commas, in order. A sequence without commas
/// is one piece; each comma separates two (possibly empty) pieces.
pub open spec fn split_commas(s: Seq<char>) -> Seq<Seq<char>>
    decreases s.len(),
{
    if s.len() == 0 {
        seq![Seq::<char>::empty()]
    } else if s[0] == ',' {
        seq![Seq::<char>::empty()] + split_commas(s.drop_first())
    } else {
        let rest = split_commas(s.drop_first());
        seq![seq![s[0]] + rest[0]] + rest.drop_first()
    }
}

/// The pieces of `s` between its commas, each with surrounding white space
/// removed.
pub open spec fn trimmed_split(s: Seq<char>) -> Seq<Seq<char>> {
    split_commas(s).map_values(|p: Seq<char>| trim_spec(p))
}

pub proof fn lemma_split_commas_nonempty(s: Seq<char>)
    ensures
        split_commas(s).len() >= 1,
    decreases s.len(),
{
    if s.len() > 0 && s[0] != ',' {
        lemma_split_commas_nonempty(s.drop_first());
    }
}

/// Splitting a sequence whose first comma stands at `j`: the piece before it,
/// then the pieces of what follows it.
proof fn lemma_split_commas_at(s: Seq<char>, j: int)
    requires
        0 <= j < s.len(),
        s[j] == ',',
        forall|k: int| 0 <= k < j ==> s[k] != ',',
    ensures
        split_commas(s) == seq![s.take(j)] + split_commas(s.skip(j + 1)),
    decreases j,
{
    if j == 0 {
        assert(s.drop_first() =~= s.skip(1));
        assert(s.take(0) =~= Seq::<char>::empty());
    } else {
        let t = s.drop_first();
        assert(forall|k: int| 0 <= k < j - 1 ==> t[k] == s[k + 1] && t[k] != ',');
        lemma_split_commas_at(t, j - 1);
        lemma_split_commas_nonempty(t.skip(j));
        assert(t.skip(j) =~= s.skip(j + 1));
        assert(seq![s[0]] + t.take(j - 1) =~= s.take(j));
        assert(split_commas(s) =~= seq![s.take(j)] + split_commas(s.skip(j + 1)));
    }
}

/// Splitting a sequence without commas: the sequence itself is the one piece.
proof fn lemma_split_commas_whole(s: Seq<char>)
    requires
        forall|k: int| 0 <= k < s.len() ==> s[k] != ',',
    ensures
        split_commas(s) == seq![s],
    decreases s.len(),
{
    if s.len() == 0 {
        assert(s =~= Seq::<char>::empty());
    } else {
        let t = s.drop_first();
        assert(forall|k: int| 0 <= k < t.len() ==> t[k] == s[k + 1] && t[k] != ',');
        lemma_split_commas_whole(t);
        assert(seq![s[0]] + t =~= s);
        assert(split_commas(s) =~= seq![s]);
    }
}

fn char_is_white_space(c: char) -> (r: bool)
    ensures
        r == is_white_space(c),
{
    c == '\u{0009}' || c == '\u{000A}' || c == '\u{000B}' || c == '\u{000C}' || c == '\u{000D}'
        || c == '\u{0020}' || c == '\u{0085}' || c == '\u{00A0}' || c == '\u{1680}'
        || c == '\u{2000}' || c == '\u{2001}' || c == '\u{2002}' || c == '\u{2003}'
        || c == '\u{2004}' || c == '\u{2005}' || c == '\u{2006}' || c == '\u{2007}'
        || c == '\u{2008}' || c == '\u{2009}' || c == '\u{200A}' || c == '\u{2028}'
        || c == '\u{2029}' || c == '\u{202F}' || c == '\u{205F}' || c == '\u{3000}'
}

/// `s` with surrounding white space removed.
pub fn trim_str(s: &str) -> (r: &str)
    ensures
        r@ == trim_spec(s@),
{
    let len = s.unicode_len();
    let mut start: usize = 0;
    proof {
        assert(s@.skip(0) =~= s@);
    }
    while start < len && char_is_white_space(s.get_char(start))
        invariant
            len == s@.len(),
            start <= len,
            trim_start_spec(s@) == trim_start_spec(s@.skip(start as int)),
        decreases len - start,
    {
        proof {
            assert(s@.skip(start as int).drop_first() =~= s@.skip(start as int + 1));
        }
        start = start + 1;
    }
    proof {
        assert(trim_start_spec(s@) == s@.skip(start as int));
    }
    let mut end: usize = len;
    while end > start && char_is_white_space(s.get_char(end - 1))
        invariant
            len == s@.len(),
            start <= end <= len,
            trim_start_spec(s@) == s@.skip(start as int),
            trim_end_spec(s@.skip(start as int)) == trim_end_spec(
                s@.subrange(start as int, end as int),
            ),
        decreases end,
    {
        proof {
            assert(s@.subrange(start as int, end as int).drop_last() =~= s@.subrange(
                start as int,
                end as int - 1,
            ));
        }
        end = end - 1;
    }
    proof {
        if end == start {
            assert(s@.subrange(start as int, end as int) =~= Seq::<char>::empty());
        }
        assert(trim_end_spec(s@.skip(start as int)) == s@.subrange(start as int, end as int));
        assert(s@.skip(start as int) =~= s@.subrange(start as int, len as int));
    }
    s.substring_char(start, end)
}

/// The comma-separated pieces of `s`, each trimmed of surrounding white
/// space.
pub fn split_commas_trimmed(s: &str) -> (r: Vec<String>)
    ensures
        r.deep_view() == trimmed_split(s@),
{
    let len = s.unicode_len();
    let mut pieces: Vec<String> = Vec::new();
    let mut start: usize = 0;
    proof {
        assert(s@.skip(0) =~= s@);
        assert(pieces.deep_view() =~= Seq::<Seq<char>>::empty());
    }
    loop
        invariant
            len == s@.len(),
            start <= len,
            trimmed_split(s@) =~= pieces.deep_view() + split_commas(s@.skip(start as int)).map_values(
                |p: Seq<char>| trim_spec(p),
            ),
        decreases len - start,
    {
        let mut j: usize = start;
        while j < len && s.get_char(j) != ','
            invariant
                len == s@.len(),
                start <= j <= len,
                forall|k: int| start <= k < j ==> s@[k] != ',',
            decreases len - j,
        {
            j = j + 1;
        }
        let piece = String::from_str(trim_str(s.substring_char(start, j)));
        if j < len {
            proof {
                let rem = s@.skip(start as int);
                assert(forall|k: int|
                    0 <= k < j - start ==> rem[k] == s@[k + start] && rem[k] != ',');
                assert(rem[j - start] == s@[j as int]);
                lemma_split_commas_at(rem, j - start);
                assert(rem.take(j - start) =~= s@.subrange(start as int, j as int));
                assert(rem.skip(j - start + 1) =~= s@.skip(j as int + 1));
            }
            pieces.push(piece);
            proof {
                assert(trimmed_split(s@) =~= pieces.deep_view() + split_commas(
                    s@.skip(j as int + 1),
                ).map_values(|p: Seq<char>| trim_spec(p)));
            }
            start = j + 1;
        } else {
            proof {
                let rem = s@.skip(start as int);
                assert(forall|k: int|
                    0 <= k < rem.len() ==> rem[k] == s@[k + start] && rem[k] != ',');
                lemma_split_commas_whole(rem);
                assert(rem.take(j - start) =~= rem);
            }
            pieces.push(piece);
            proof {
                assert(trimmed_split(s@) =~= pieces.deep_view());
            }
            return pieces;
        }
    }
}

} // verus!
