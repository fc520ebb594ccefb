//! Collision-free filename generation: a name is split into stem and
//! extension at its last dot, and numbered candidates `stem_k.ext` (or
//! `stem_k` when the extension is empty or absent) are tried in order until
//! one is absent from the directory listing.

use vstd::prelude::*;

verus! {

/// The index of the last `'.'` in `s`, or `-1` if there is none.
pub open spec fn last_dot(s: Seq<char>) -> int
    decreases s.len(),
{
    if s.len() == 0 {
        -1
    } else if s.last() == '.' {
        s.len() - 1
    } else {
        last_dot(s.drop_last())
    }
}

/// Whether the name carries an extension, that is, contains a dot.
pub open spec fn has_extension(s: Seq<char>) -> bool {
    last_dot(s) >= 0
}

/// The part of the name before its last dot; the whole name if it has none.
pub open spec fn stem_of(s: Seq<char>) -> Seq<char> {
    if last_dot(s) < 0 {
        s
    } else {
        s.take(last_dot(s))
    }
}

/// The part of the name after its last dot; empty if it has none.
pub open spec fn ext_of(s: Seq<char>) -> Seq<char> {
    if last_dot(s) < 0 {
        Seq::empty()
    } else {
        s.skip(last_dot(s) + 1)
    }
}

pub proof fn lemma_last_dot(s: Seq<char>)
    ensures
        -1 <= last_dot(s) < s.len(),
        last_dot(s) >= 0 ==> s[last_dot(s)] == '.',
        forall|k: int| last_dot(s) < k < s.len() ==> s[k] != '.',
    decreases s.len(),
{
    if s.len() == 0 {
    } else if s.last() == '.' {
    } else {
        let t = s.drop_last();
        lemma_last_dot(t);
        assert(forall|k: int| 0 <= k < t.len() ==> t[k] == s[k]);
    }
}

/// The name is its stem, a dot, and its extension, whenever it has one.
pub proof fn lemma_name_reassembly(s: Seq<char>)
    requires
        has_extension(s),
    ensures
        s == stem_of(s) + seq!['.'] + ext_of(s),
{
    lemma_last_dot(s);
    assert(s =~= stem_of(s) + seq!['.'] + ext_of(s));
}

/// The decimal digit `d` as a character.
pub open spec fn dec_digit(d: int) -> char {
    if d == 0 {
        '0'
    } else if d == 1 {
        '1'
    } else if d == 2 {
        '2'
    } else if d == 3 {
        '3'
    } else if d == 4 {
        '4'
    } else if d == 5 {
        '5'
    } else if d == 6 {
        '6'
    } else if d == 7 {
        '7'
    } else if d == 8 {
        '8'
    } else {
        '9'
    }
}

/// The decimal representation of `n`, without leading zeros.
pub open spec fn dec_rep(n: nat) -> Seq<char>
    decreases n,
{
    if n < 10 {
        seq![dec_digit(n as int)]
    } else {
        dec_rep(n / 10) + seq![dec_digit((n % 10) as int)]
    }
}

pub proof fn lemma_dec_rep_len(n: nat)
    ensures
        dec_rep(n).len() >= 1,
        n >= 10 ==> dec_rep(n).len() >= 2,
    decreases n,
{
    if n >= 10 {
        lemma_dec_rep_len(n / 10);
    }
}

/// Distinct numbers have distinct decimal representations.
pub proof fn lemma_dec_rep_injective(a: nat, b: nat)
    requires
        dec_rep(a) == dec_rep(b),
    ensures
        a == b,
    decreases a,
{
    if a < 10 && b < 10 {
        assert(dec_rep(a)[0] == dec_digit(a as int));
        assert(dec_rep(b)[0] == dec_digit(b as int));
    } else if a < 10 && b >= 10 {
        lemma_dec_rep_len(b / 10);
    } else if a >= 10 && b < 10 {
        lemma_dec_rep_len(a / 10);
    } else {
        assert(dec_rep(a).last() == dec_digit((a % 10) as int));
        assert(dec_rep(b).last() == dec_digit((b % 10) as int));
        assert(a % 10 == b % 10);
        assert(dec_rep(a).drop_last() =~= dec_rep(a / 10));
        assert(dec_rep(b).drop_last() =~= dec_rep(b / 10));
        lemma_dec_rep_injective(a / 10, b / 10);
        assert(a == 10 * (a / 10) + a % 10) by {
            vstd::arithmetic::div_mod::lemma_fundamental_div_mod(a as int, 10);
        }
        assert(b == 10 * (b / 10) + b % 10) by {
            vstd::arithmetic::div_mod::lemma_fundamental_div_mod(b as int, 10);
        }
    }
}

/// Candidate `k` for storing a name: the name itself for `k == 0`; for larger
/// `k`, the stem with `_k` appended, keeping the extension if there is a
/// non-empty one. A name whose last dot ends it has an empty extension, and
/// its numbered candidates drop the dot: `book.` gives `book_1`, `book_2`, ...
pub open spec fn candidate(orig: Seq<char>, k: nat) -> Seq<char> {
    if k == 0 {
        orig
    } else if ext_of(orig).len() > 0 {
        stem_of(orig) + seq!['_'] + dec_rep(k) + seq!['.'] + ext_of(orig)
    } else {
        stem_of(orig) + seq!['_'] + dec_rep(k)
    }
}

/// The length of a numbered candidate, from the lengths of its parts.
proof fn lemma_candidate_len(orig: Seq<char>, k: nat)
    requires
        k >= 1,
    ensures
        ext_of(orig).len() > 0 ==> candidate(orig, k).len() == stem_of(orig).len() + 1 + dec_rep(
            k,
        ).len() + 1 + ext_of(orig).len(),
        ext_of(orig).len() == 0 ==> candidate(orig, k).len() == stem_of(orig).len() + 1 + dec_rep(
            k,
        ).len(),
{
    assert(seq!['_'].len() == 1);
    assert(seq!['.'].len() == 1);
}

/// Distinct counters give distinct candidate names.
pub proof fn lemma_candidate_injective(orig: Seq<char>, j: nat, k: nat)
    requires
        j != k,
    ensures
        candidate(orig, j) != candidate(orig, k),
{
    lemma_last_dot(orig);
    if has_extension(orig) {
        lemma_name_reassembly(orig);
    }
    if j == 0 || k == 0 {
        let m: nat = if j == 0 {
            k
        } else {
            j
        };
        lemma_dec_rep_len(m);
        lemma_candidate_len(orig, m);
        assert(candidate(orig, 0).len() < candidate(orig, m).len());
    } else {
        lemma_candidate_len(orig, j);
        lemma_candidate_len(orig, k);
        if candidate(orig, j) == candidate(orig, k) {
            let p = stem_of(orig).len() + 1;
            assert(dec_rep(j).len() == dec_rep(k).len());
            assert(forall|i: int|
                0 <= i < dec_rep(j).len() ==> candidate(orig, j)[p + i] == dec_rep(j)[i]);
            assert(forall|i: int|
                0 <= i < dec_rep(k).len() ==> candidate(orig, k)[p + i] == dec_rep(k)[i]);
            assert(dec_rep(j) =~= dec_rep(k));
            lemma_dec_rep_injective(j, k);
            assert(false);
        }
    }
}

/// Whether `name` stands among `names`.
pub open spec fn taken(names: Seq<Seq<char>>, name: Seq<char>) -> bool {
    exists|i: int| 0 <= i < names.len() && names[i] == name
}

/// `r` is the first candidate for `orig` that is absent from `names`.
pub open spec fn is_unique_choice(names: Seq<Seq<char>>, orig: Seq<char>, r: Seq<char>) -> bool {
    exists|k: nat|
        r == #[trigger] candidate(orig, k) && !taken(names, candidate(orig, k)) && (forall|j: nat|
            j < k ==> taken(names, candidate(orig, j)))
}

fn name_is_taken(existing: &Vec<String>, name: &String) -> (r: bool)
    ensures
        r == taken(existing.deep_view(), name@),
{
    let ghost names = existing.deep_view();
    let mut i: usize = 0;
    while i < existing.len()
        invariant
            names == existing.deep_view(),
            i <= existing.len(),
            names.len() == existing.len(),
            forall|k: int| 0 <= k < i ==> names[k] != name@,
        decreases existing.len() - i,
    {
        proof {
            assert(names[i as int] == existing@[i as int]@);
        }
        if existing[i] == *name {
            return true;
        }
        i = i + 1;
    }
    false
}

fn digit_str(d: u64) -> (r: &'static str)
    requires
        d < 10,
    ensures
        r@ == seq![dec_digit(d as int)],
{
    let r: &'static str = match d {
        0 => "0",
        1 => "1",
        2 => "2",
        3 => "3",
        4 => "4",
        5 => "5",
        6 => "6",
        7 => "7",
        8 => "8",
        _ => "9",
    };
    proof {
        reveal_strlit("0");
        reveal_strlit("1");
        reveal_strlit("2");
        reveal_strlit("3");
        reveal_strlit("4");
        reveal_strlit("5");
        reveal_strlit("6");
        reveal_strlit("7");
        reveal_strlit("8");
        reveal_strlit("9");
        assert(r@ =~= seq![dec_digit(d as int)]);
    }
    r
}

fn dec_string(n: u64) -> (r: String)
    ensures
        r@ == dec_rep(n as nat),
    decreases n,
{
    if n < 10 {
        String::from_str(digit_str(n))
    } else {
        let q = dec_string(n / 10);
        q.concat(digit_str(n % 10))
    }
}

pub(crate) fn find_last_dot(s: &str) -> (r: Option<usize>)
    ensures
        match r {
            Some(i) => i == last_dot(s@),
            None => last_dot(s@) == -1,
        },
{
    let len = s.unicode_len();
    let mut i: usize = len;
    while i > 0
        invariant
            len == s@.len(),
            i <= len,
            forall|k: int| i <= k < len ==> s@[k] != '.',
        decreases i,
    {
        i = i - 1;
        if s.get_char(i) == '.' {
            proof {
                lemma_last_dot(s@);
            }
            return Some(i);
        }
    }
    proof {
        lemma_last_dot(s@);
    }
    None
}

fn build_candidate(original: &str, k: u64) -> (r: String)
    requires
        k >= 1,
    ensures
        r@ == candidate(original@, k as nat),
{
    let num = dec_string(k);
    match find_last_dot(original) {
        Some(d) => {
            proof {
                lemma_last_dot(original@);
            }
            let len = original.unicode_len();
            if d + 1 == len {
                let stem = original.substring_char(0, d);
                let r = String::from_str(stem).concat("_").concat(num.as_str());
                proof {
                    reveal_strlit("_");
                    assert(ext_of(original@).len() == 0);
                    assert(stem@ =~= stem_of(original@));
                    assert(r@ =~= candidate(original@, k as nat));
                }
                r
            } else {
                let stem = original.substring_char(0, d);
                let ext = original.substring_char(d + 1, len);
                let r = String::from_str(stem).concat("_").concat(num.as_str()).concat(
                    ".",
                ).concat(ext);
                proof {
                    reveal_strlit("_");
                    reveal_strlit(".");
                    assert(stem@ =~= stem_of(original@));
                    assert(ext@ =~= ext_of(original@));
                    assert(ext_of(original@).len() > 0);
                    assert(r@ =~= candidate(original@, k as nat));
                }
                r
            }
        },
        None => {
            let r = String::from_str(original).concat("_").concat(num.as_str());
            proof {
                reveal_strlit("_");
                assert(original@ == stem_of(original@));
                assert(r@ =~= candidate(original@, k as nat));
            }
            r
        },
    }
}

/// The first name in the candidate sequence for `original_filename` that is
/// absent from `existing`: the original name itself if it is free, else
/// `stem_1.ext`, `stem_2.ext`, and so on — without the dot when the
/// extension is empty (`book.` gives `book_1`) or absent. An empty name has
/// an empty stem, so its candidates are `_1`, `_2`, and so on.
pub fn get_unique_filename(existing: &Vec<String>, original_filename: &str) -> (r: String)
    ensures
        is_unique_choice(existing.deep_view(), original_filename@, r@),
        !taken(existing.deep_view(), r@),
{
    let ghost names = existing.deep_view();
    let ghost name_set = names.to_set();
    let ghost orig = original_filename@;
    let n_names = existing.len();
    let mut k: u64 = 0;
    let mut current = String::from_str(original_filename);
    let ghost mut tried: Set<Seq<char>> = Set::empty();
    proof {
        broadcast use vstd::seq_lib::seq_to_set_is_finite;
        broadcast use vstd::set::group_set_axioms;

        names.lemma_cardinality_of_set();
    }
    loop
        invariant
            names == existing.deep_view(),
            name_set == names.to_set(),
            name_set.finite(),
            name_set.len() <= n_names,
            names.len() == n_names,
            orig == original_filename@,
            current@ == candidate(orig, k as nat),
            forall|j: nat| j < k as nat ==> taken(names, candidate(orig, j)),
            tried.finite(),
            tried.len() == k as nat,
            tried.subset_of(name_set),
            forall|n: Seq<char>| #[trigger]
                tried.contains(n) ==> exists|j: nat| j < k as nat && n == candidate(orig, j),
            k as nat <= name_set.len(),
        decreases name_set.len() - k as nat,
    {
        if !name_is_taken(existing, &current) {
            proof {
                assert(is_unique_choice(names, orig, current@));
            }
            return current;
        }
        proof {
            broadcast use vstd::set::group_set_axioms;

            assert(names.contains(current@));
            assert(name_set.contains(current@));
            assert(!tried.contains(candidate(orig, k as nat))) by {
                if tried.contains(candidate(orig, k as nat)) {
                    let j = choose|j: nat| j < k as nat && candidate(orig, k as nat) == candidate(
                        orig,
                        j,
                    );
                    lemma_candidate_injective(orig, j, k as nat);
                    assert(false);
                }
            }
            tried = tried.insert(current@);
            vstd::set_lib::lemma_len_subset(tried, name_set);
            assert(tried.len() == k as nat + 1);
            assert(k as nat + 1 <= name_set.len());
            assert forall|n: Seq<char>| #[trigger] tried.contains(n) implies exists|j: nat|
                j < k as nat + 1 && n == candidate(orig, j) by {
                if n == current@ {
                    assert(n == candidate(orig, k as nat));
                }
            }
        }
        k = k + 1;
        current = build_candidate(original_filename, k);
    }
}

pub proof fn lemma_taken_push(names: Seq<Seq<char>>, extra: Seq<char>, n: Seq<char>)
    ensures
        taken(names.push(extra), n) <==> (taken(names, n) || n == extra),
{
    if taken(names, n) {
        let i = choose|i: int| 0 <= i < names.len() && names[i] == n;
        assert(names.push(extra)[i] == n);
    }
    if n == extra {
        assert(names.push(extra)[names.len() as int] == n);
    }
    if taken(names.push(extra), n) {
        let i = choose|i: int| 0 <= i < names.push(extra).len() && names.push(extra)[i] == n;
        if i < names.len() {
            assert(names[i] == n);
        }
    }
}

/// Storing the same original name twice in sequence never reuses the name the
/// first store chose: the second choice avoids a listing that contains it.
pub proof fn lemma_second_name_distinct(
    names: Seq<Seq<char>>,
    orig: Seq<char>,
    u1: Seq<char>,
    u2: Seq<char>,
)
    requires
        is_unique_choice(names, orig, u1),
        is_unique_choice(names.push(u1), orig, u2),
    ensures
        u1 != u2,
{
    let k2 = choose|k: nat|
        u2 == #[trigger] candidate(orig, k) && !taken(names.push(u1), candidate(orig, k)) && (
        forall|j: nat| j < k ==> taken(names.push(u1), candidate(orig, j)));
    assert(names.push(u1)[names.len() as int] == u1);
}

/// In a directory that holds neither the original name nor its first numbered
/// variant, the first store keeps the original name and the second store of
/// the same name gets the stem with `_1` appended, before the extension when
/// there is a non-empty one.
pub proof fn lemma_second_name_suffix(
    names: Seq<Seq<char>>,
    orig: Seq<char>,
    u1: Seq<char>,
    u2: Seq<char>,
)
    requires
        is_unique_choice(names, orig, u1),
        is_unique_choice(names.push(u1), orig, u2),
        !taken(names, candidate(orig, 0)),
        !taken(names, candidate(orig, 1)),
    ensures
        u1 == orig,
        u2 == candidate(orig, 1),
{
    let k1 = choose|k: nat|
        u1 == #[trigger] candidate(orig, k) && !taken(names, candidate(orig, k)) && (forall|
            j: nat,
        |
            j < k ==> taken(names, candidate(orig, j)));
    if k1 > 0 {
        assert(taken(names, candidate(orig, 0)));
        assert(false);
    }
    assert(u1 == orig);
    let pushed = names.push(u1);
    let k2 = choose|k: nat|
        u2 == #[trigger] candidate(orig, k) && !taken(pushed, candidate(orig, k)) && (forall|
            j: nat,
        |
            j < k ==> taken(pushed, candidate(orig, j)));
    lemma_taken_push(names, u1, candidate(orig, 0));
    lemma_taken_push(names, u1, candidate(orig, 1));
    lemma_candidate_injective(orig, 0, 1);
    if k2 == 0 {
        assert(taken(pushed, candidate(orig, 0)));
        assert(false);
    }
    if k2 > 1 {
        assert(taken(pushed, candidate(orig, 1)));
        assert(false);
    }
    assert(u2 == candidate(orig, 1));
}

} // verus!
