use vstd::prelude::*;
use crate::model::strings_view;

verus! {

/// The text of `s` lower-cased the way `str::to_lowercase` does it.
pub uninterp spec fn lower_of(s: Seq<char>) -> Seq<char>;

/// Relies on `str::to_lowercase`: the result depends on the characters alone.
#[verifier::external_body]
fn lowercase(s: &String) -> (r: String)
    ensures
        r@ == lower_of(s@),
{
    s.to_lowercase()
}

/// `needle` occurs as a contiguous run in `hay`.
pub open spec fn is_infix(needle: Seq<char>, hay: Seq<char>) -> bool {
    exists|i: int|
        0 <= i && i + needle.len() <= hay.len() && #[trigger] hay.subrange(i, i + needle.len())
            == needle
}

/// Whether `needle` occurs in `hay`, character by character.
pub fn contains_text(hay: &String, needle: &String) -> (r: bool)
    ensures
        r == is_infix(needle@, hay@),
{
    let h = hay.as_str();
    let n = needle.as_str();
    let hl = h.unicode_len();
    let nl = n.unicode_len();
    if nl > hl {
        assert forall|i: int| 0 <= i && i + nl <= hl implies #[trigger] hay@.subrange(i, i + nl)
            != needle@ by {}
        return false;
    }
    let mut i: usize = 0;
    while i <= hl - nl
        invariant
            h@ == hay@,
            n@ == needle@,
            hl == hay@.len(),
            nl == needle@.len(),
            nl <= hl,
            i <= hl - nl + 1,
            forall|j: int| 0 <= j < i ==> #[trigger] hay@.subrange(j, j + nl) != needle@,
        decreases hl - nl + 1 - i,
    {
        let mut k: usize = 0;
        let mut same = true;
        while k < nl
            invariant
                h@ == hay@,
                n@ == needle@,
                hl == hay@.len(),
                nl == needle@.len(),
                i + nl <= hl,
                k <= nl,
                same == (forall|m: int| 0 <= m < k ==> hay@[i + m] == needle@[m]),
            decreases nl - k,
        {
            if h.get_char(i + k) != n.get_char(k) {
                same = false;
            }
            k = k + 1;
        }
        if same {
            assert(hay@.subrange(i as int, i + nl) =~= needle@);
            return true;
        }
        proof {
            let m = choose|m: int| 0 <= m < nl && hay@[i + m] != needle@[m];
            assert(hay@.subrange(i as int, i + nl)[m] != needle@[m]);
        }
        i = i + 1;
    }
    false
}

/// Whether the lower-cased `pattern` occurs in the lower-cased `name`.
pub fn name_contains_folded(name: &String, pattern: &String) -> (r: bool)
    ensures
        r == is_infix(lower_of(pattern@), lower_of(name@)),
{
    let n = lowercase(name);
    let p = lowercase(pattern);
    contains_text(&n, &p)
}

/// Whether `s` is one of the entries of `v`.
pub fn has_entry(v: &Vec<String>, s: &String) -> (r: bool)
    ensures
        r == strings_view(v@).contains(s@),
{
    let mut i: usize = 0;
    while i < v.len()
        invariant
            i <= v@.len(),
            forall|j: int| 0 <= j < i ==> v@[j]@ != s@,
        decreases v@.len() - i,
    {
        if v[i] == *s {
            assert(strings_view(v@)[i as int] == s@);
            return true;
        }
        i = i + 1;
    }
    assert forall|j: int| 0 <= j < strings_view(v@).len() implies strings_view(v@)[j] != s@ by {
        assert(strings_view(v@)[j] == v@[j]@);
    }
    false
}

/// The tag that marks a card as a joker.
pub open spec fn joker_tag() -> Seq<char> {
    seq!['j', 'o', 'k', 'e', 'r']
}

/// Whether the tag list holds the joker tag.
pub fn has_joker_tag(tags: &Vec<String>) -> (r: bool)
    ensures
        r == strings_view(tags@).contains(joker_tag()),
{
    let joker: String = "joker".to_owned();
    proof {
        reveal_strlit("joker");
        assert(joker@ =~= joker_tag());
    }
    has_entry(tags, &joker)
}

} // verus!
