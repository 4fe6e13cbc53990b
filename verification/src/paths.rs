use vstd::prelude::*;
use vstd::string::*;

use crate::record::string_views;

verus! {

/// A file name that names a bibliography store: a nonempty stem followed by
/// the store extension.
pub open spec fn is_bib_name(s: Seq<char>) -> bool {
    s.len() >= 5 && s.subrange(s.len() - 4, s.len() as int) == ".bib"@
}

/// How many of the names name a bibliography store.
pub open spec fn count_bib(names: Seq<Seq<char>>) -> nat
    decreases names.len(),
{
    if names.len() == 0 {
        0
    } else {
        count_bib(names.drop_last()) + if is_bib_name(names.last()) {
            1nat
        } else {
            0nat
        }
    }
}

/// Whether `s` names a bibliography store.
pub fn is_bib_file_name(s: &str) -> (b: bool)
    ensures
        b == is_bib_name(s@),
{
    proof {
        reveal_strlit(".bib");
    }
    let n = s.unicode_len();
    if n < 5 {
        return false;
    }
    let b = s.get_char(n - 4) == '.' && s.get_char(n - 3) == 'b' && s.get_char(n - 2) == 'i'
        && s.get_char(n - 1) == 'b';
    proof {
        let t = s@.subrange(n - 4 as int, n as int);
        assert(t.len() == 4);
        assert(t[0] == s@[n - 4 as int]);
        assert(t[1] == s@[n - 3 as int]);
        assert(t[2] == s@[n - 2 as int]);
        assert(t[3] == s@[n - 1 as int]);
        assert(".bib"@[0] == '.' && ".bib"@[1] == 'b' && ".bib"@[2] == 'i' && ".bib"@[3]
            == 'b');
        if b {
            assert(t =~= ".bib"@);
        }
    }
    b
}

/// Picks the store to work on when none was named: the one file name with
/// the store extension; nothing when there is none or more than one.
pub fn get_unique_bib(names: &Vec<String>) -> (r: Option<String>)
    ensures
        r is Some <==> count_bib(string_views(names@)) == 1,
        r matches Some(p) ==> is_bib_name(p@) && exists|i: int|
            0 <= i < names@.len() && #[trigger] names@[i]@ == p@,
{
    let n = names.len();
    let mut count: usize = 0;
    let mut found: usize = 0;
    let mut j: usize = 0;
    proof {
        assert(string_views(names@).take(0) =~= Seq::<Seq<char>>::empty());
    }
    while j < n
        invariant
            0 <= j <= n,
            n == names@.len(),
            count == count_bib(string_views(names@).take(j as int)),
            count <= j,
            count >= 1 ==> found < j && is_bib_name(names@[found as int]@),
        decreases n - j,
    {
        let ghost pre = string_views(names@).take(j as int);
        if is_bib_file_name(names[j].as_str()) {
            count = count + 1;
            found = j;
        }
        proof {
            assert(string_views(names@).take(j + 1 as int).drop_last() =~= pre);
            assert(string_views(names@).take(j + 1 as int).last() == names@[j as int]@);
        }
        j = j + 1;
    }
    proof {
        assert(string_views(names@).take(n as int) =~= string_views(names@));
    }
    if count == 1 {
        Some(names[found].clone())
    } else {
        None
    }
}

/// The path of the backup written before a conversion: the store path with
/// the backup suffix added.
pub fn backup_bib_path(path: &str) -> (r: String)
    ensures
        r@ == path@ + ".bak"@,
{
    let mut r = String::from_str(path);
    r.append(".bak");
    r
}

} // verus!
