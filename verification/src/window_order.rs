use vstd::prelude::*;

use crate::text::chars_of;
use crate::window::WindowInfo;

verus! {

broadcast use vstd::seq_lib::group_to_multiset_ensures;

/// What `str::to_lowercase` makes of `s`.
pub uninterp spec fn lowercase(s: Seq<char>) -> Seq<char>;

/// Lowercases text by Unicode rules (`str::to_lowercase`). Claimed: the result
/// is `lowercase` of the text.
#[verifier::external_body]
fn to_lowercase(s: &str) -> (r: String)
    ensures
        r@ == lowercase(s@),
{
    s.to_lowercase()
}

/// `a` comes no later than `b` in lexicographic order of code points, which is
/// how `String`s compare (UTF-8 keeps code point order).
pub open spec fn chars_le(a: Seq<char>, b: Seq<char>) -> bool
    decreases a.len(),
{
    if a.len() == 0 {
        true
    } else if b.len() == 0 {
        false
    } else if a[0] != b[0] {
        a[0] < b[0]
    } else {
        chars_le(a.drop_first(), b.drop_first())
    }
}

/// The key windows are listed by: the title, lowercased.
pub open spec fn title_key(w: WindowInfo) -> Seq<char> {
    lowercase(w.title@)
}

/// `ws` is in order of its titles, lowercased.
pub open spec fn sorted_by_title(ws: Seq<WindowInfo>) -> bool {
    forall|i: int, j: int|
        0 <= i < j < ws.len() ==> chars_le(#[trigger] title_key(ws[i]), #[trigger] title_key(ws[j]))
}

pub proof fn lemma_chars_le_total(a: Seq<char>, b: Seq<char>)
    ensures
        chars_le(a, b) || chars_le(b, a),
    decreases a.len(),
{
    if a.len() > 0 && b.len() > 0 && a[0] == b[0] {
        lemma_chars_le_total(a.drop_first(), b.drop_first());
    }
}

pub proof fn lemma_chars_le_trans(a: Seq<char>, b: Seq<char>, c: Seq<char>)
    requires
        chars_le(a, b),
        chars_le(b, c),
    ensures
        chars_le(a, c),
    decreases a.len(),
{
    if a.len() > 0 && b.len() > 0 && c.len() > 0 && a[0] == b[0] && b[0] == c[0] {
        lemma_chars_le_trans(a.drop_first(), b.drop_first(), c.drop_first());
    }
}

/// `a` is `b` or a beginning of it.
pub open spec fn is_prefix_of(a: Seq<char>, b: Seq<char>) -> bool {
    a.len() <= b.len() && b.take(a.len() as int) == a
}

/// `a` and `b` agree before position `i`, where `a` has the smaller character.
pub open spec fn first_difference_lower(a: Seq<char>, b: Seq<char>, i: int) -> bool {
    0 <= i < a.len() && i < b.len() && a.take(i) == b.take(i) && a[i] < b[i]
}

/// Titles and names are ordered as `String`s are: `a` comes no later than `b`
/// exactly when `a` is a beginning of `b` (so a proper prefix comes first), or
/// at the first position where they differ `a` has the smaller character. In
/// particular `a` comes before anything that extends it, and two texts that
/// each come no later than the other are equal.
pub proof fn law_title_order_is_lexicographic(a: Seq<char>, b: Seq<char>)
    ensures
        chars_le(a, b) <==> (is_prefix_of(a, b) || exists|i: int|
            first_difference_lower(a, b, i)),
        chars_le(a, a + b),
        chars_le(a, b) && chars_le(b, a) ==> a == b,
{
    lemma_chars_le_lex(a, b);
    lemma_chars_le_lex(b, a);
    assert((a + b).take(a.len() as int) =~= a);
    lemma_chars_le_lex(a, a + b);
    if chars_le(a, b) && chars_le(b, a) {
        if is_prefix_of(a, b) && is_prefix_of(b, a) {
            assert(a =~= b);
        } else if is_prefix_of(a, b) {
            let i = choose|i: int| first_difference_lower(b, a, i);
            assert(b.take(a.len() as int)[i] == a[i]);
        } else if is_prefix_of(b, a) {
            let i = choose|i: int| first_difference_lower(a, b, i);
            assert(a.take(b.len() as int)[i] == b[i]);
        } else {
            let i = choose|i: int| first_difference_lower(a, b, i);
            let j = choose|j: int| first_difference_lower(b, a, j);
            if i < j {
                assert(b.take(j)[i] == a.take(j)[i]);
            } else if j < i {
                assert(a.take(i)[j] == b.take(i)[j]);
            }
        }
    }
}

proof fn lemma_chars_le_lex(a: Seq<char>, b: Seq<char>)
    ensures
        chars_le(a, b) <==> (is_prefix_of(a, b) || exists|i: int|
            first_difference_lower(a, b, i)),
    decreases a.len(),
{
    if a.len() == 0 {
        assert(b.take(0) =~= a);
    } else if b.len() == 0 {
    } else if a[0] != b[0] {
        if is_prefix_of(a, b) {
            assert(b.take(a.len() as int)[0] == b[0]);
        }
        if exists|i: int| first_difference_lower(a, b, i) {
            let i = choose|i: int| first_difference_lower(a, b, i);
            if i > 0 {
                assert(a.take(i)[0] == b.take(i)[0]);
            }
        }
        if a[0] < b[0] {
            assert(a.take(0) =~= b.take(0));
            assert(first_difference_lower(a, b, 0));
        }
    } else {
        let a1 = a.drop_first();
        let b1 = b.drop_first();
        lemma_chars_le_lex(a1, b1);
        if is_prefix_of(a, b) {
            assert(b1.take(a1.len() as int) =~= a1) by {
                assert forall|j: int| 0 <= j < a1.len() implies #[trigger] b1.take(
                    a1.len() as int,
                )[j] == a1[j] by {
                    assert(b.take(a.len() as int)[j + 1] == a[j + 1]);
                }
            }
        }
        if is_prefix_of(a1, b1) {
            assert(b.take(a.len() as int) =~= a) by {
                assert forall|j: int| 0 <= j < a.len() implies #[trigger] b.take(
                    a.len() as int,
                )[j] == a[j] by {
                    if j > 0 {
                        assert(b1.take(a1.len() as int)[j - 1] == a1[j - 1]);
                    }
                }
            }
        }
        if exists|i: int| first_difference_lower(a, b, i) {
            let i = choose|i: int| first_difference_lower(a, b, i);
            assert(i > 0);
            assert(a1.take(i - 1) =~= b1.take(i - 1)) by {
                assert forall|j: int| 0 <= j < i - 1 implies #[trigger] a1.take(i - 1)[j]
                    == b1.take(i - 1)[j] by {
                    assert(a.take(i)[j + 1] == b.take(i)[j + 1]);
                }
            }
            assert(first_difference_lower(a1, b1, i - 1));
        }
        if exists|i: int| first_difference_lower(a1, b1, i) {
            let i = choose|i: int| first_difference_lower(a1, b1, i);
            assert(a.take(i + 1) =~= b.take(i + 1)) by {
                assert forall|j: int| 0 <= j < i + 1 implies #[trigger] a.take(i + 1)[j]
                    == b.take(i + 1)[j] by {
                    if j > 0 {
                        assert(a1.take(i)[j - 1] == b1.take(i)[j - 1]);
                    }
                }
            }
            assert(first_difference_lower(a, b, i + 1));
        }
    }
}

/// Whether `a` comes no later than `b` in code point order (as `String`s compare).
pub fn chars_le_exec(a: &Vec<char>, b: &Vec<char>) -> (r: bool)
    ensures
        r == chars_le(a@, b@),
{
    let mut i: usize = 0;
    proof {
        assert(a@.skip(0) =~= a@);
        assert(b@.skip(0) =~= b@);
    }
    while i < a.len() && i < b.len() && a[i] == b[i]
        invariant
            i <= a@.len(),
            i <= b@.len(),
            chars_le(a@, b@) == chars_le(a@.skip(i as int), b@.skip(i as int)),
        decreases a@.len() - i,
    {
        proof {
            assert(a@.skip(i as int).drop_first() =~= a@.skip(i + 1));
            assert(b@.skip(i as int).drop_first() =~= b@.skip(i + 1));
        }
        i = i + 1;
    }
    proof {
        if i < a@.len() {
            assert(a@.skip(i as int)[0] == a@[i as int]);
        }
        if i < b@.len() {
            assert(b@.skip(i as int)[0] == b@[i as int]);
        }
    }
    if i == a.len() {
        true
    } else if i == b.len() {
        false
    } else {
        a[i] < b[i]
    }
}

/// `sorted` is `windows` reordered, `sorted[m]` being `windows[origin[m]]`,
/// with windows of equal (lowercased) titles left in their original order.
pub open spec fn stable_reordering(
    windows: Seq<WindowInfo>,
    sorted: Seq<WindowInfo>,
    origin: Seq<int>,
) -> bool {
    &&& origin.len() == sorted.len()
    &&& forall|m: int|
        0 <= m < sorted.len() ==> 0 <= #[trigger] origin[m] < windows.len() && sorted[m]
            == windows[origin[m]]
    &&& forall|a: int, b: int|
        0 <= a < b < sorted.len() ==> #[trigger] origin[a] != #[trigger] origin[b]
    &&& forall|a: int, b: int|
        0 <= a < b < sorted.len() && title_key(#[trigger] sorted[a]) == title_key(
            #[trigger] sorted[b],
        ) ==> origin[a] < origin[b]
}

/// Orders enumerated windows by title, ignoring case, keeping every window
/// and the enumeration order of windows whose titles compare equal.
#[verifier::rlimit(40)]
pub fn sort_windows(windows: Vec<WindowInfo>) -> (sorted: Vec<WindowInfo>)
    ensures
        sorted@.to_multiset() == windows@.to_multiset(),
        sorted_by_title(sorted@),
        exists|origin: Seq<int>| stable_reordering(windows@, sorted@, origin),
{
    let ghost input = windows@;
    let mut rest = windows;
    let mut out: Vec<WindowInfo> = Vec::new();
    let mut keys: Vec<Vec<char>> = Vec::new();
    let ghost mut origin: Seq<int> = Seq::empty();
    let ghost mut taken: int = 0;
    proof {
        assert(out@.to_multiset().add(rest@.to_multiset()) =~= input.to_multiset());
        assert(rest@ =~= input.skip(0));
    }
    while rest.len() > 0
        invariant
            out@.to_multiset().add(rest@.to_multiset()) == input.to_multiset(),
            keys@.len() == out@.len(),
            forall|m: int| 0 <= m < keys@.len() ==> #[trigger] keys@[m]@ == title_key(out@[m]),
            sorted_by_title(out@),
            0 <= taken <= input.len(),
            rest@ == input.skip(taken),
            origin.len() == out@.len(),
            forall|m: int|
                0 <= m < out@.len() ==> 0 <= #[trigger] origin[m] < taken && out@[m]
                    == input[origin[m]],
            forall|a: int, b: int|
                0 <= a < b < out@.len() ==> #[trigger] origin[a] != #[trigger] origin[b],
            forall|a: int, b: int|
                0 <= a < b < out@.len() && title_key(#[trigger] out@[a]) == title_key(
                    #[trigger] out@[b],
                ) ==> origin[a] < origin[b],
        decreases rest@.len(),
    {
        let ghost before_rest = rest@;
        let w = rest.remove(0);
        proof {
            assert(w == input[taken]);
            assert(rest@ =~= input.skip(taken + 1));
        }
        let k = chars_of(to_lowercase(w.title.as_str()).as_str());
        let mut j: usize = 0;
        while j < out.len() && chars_le_exec(&keys[j], &k)
            invariant
                j <= out@.len(),
                keys@.len() == out@.len(),
                forall|m: int| 0 <= m < keys@.len() ==> #[trigger] keys@[m]@ == title_key(out@[m]),
                k@ == title_key(w),
                forall|m: int| 0 <= m < j ==> chars_le(#[trigger] title_key(out@[m]), k@),
            decreases out@.len() - j,
        {
            j = j + 1;
        }
        let ghost old_out = out@;
        let ghost old_keys = keys@;
        let ghost old_origin = origin;
        proof {
            assert(j < old_out.len() ==> !chars_le(title_key(old_out[j as int]), k@));
            assert forall|m: int| j <= m < old_out.len() implies chars_le(
                k@,
                #[trigger] title_key(old_out[m]),
            ) && title_key(old_out[m]) != k@ by {
                lemma_chars_le_total(title_key(old_out[j as int]), k@);
                if m > j {
                    lemma_chars_le_trans(k@, title_key(old_out[j as int]), title_key(old_out[m]));
                    assert(chars_le(title_key(old_out[j as int]), title_key(old_out[m])));
                }
            }
        }
        out.insert(j, w);
        keys.insert(j, k);
        proof {
            origin = old_origin.insert(j as int, taken);
            old_out.insert_ensures(j as int, w);
            old_keys.insert_ensures(j as int, k);
            old_origin.insert_ensures(j as int, taken);
            assert forall|m: int| 0 <= m < keys@.len() implies #[trigger] keys@[m]@ == title_key(
                out@[m],
            ) by {
                if m < j {
                    assert(keys@[m] == old_keys[m]);
                    assert(out@[m] == old_out[m]);
                } else if m > j {
                    assert(keys@[m] == old_keys[m - 1]);
                    assert(out@[m] == old_out[m - 1]);
                }
            }
            assert forall|m: int| 0 <= m < out@.len() implies 0 <= #[trigger] origin[m] < taken
                + 1 && out@[m] == input[origin[m]] by {
                if m < j {
                    assert(origin[m] == old_origin[m]);
                    assert(out@[m] == old_out[m]);
                } else if m > j {
                    assert(origin[m] == old_origin[m - 1]);
                    assert(out@[m] == old_out[m - 1]);
                }
            }
            assert forall|a: int, b: int| 0 <= a < b < out@.len() implies chars_le(
                #[trigger] title_key(out@[a]),
                #[trigger] title_key(out@[b]),
            ) by {
                let oa = if a < j {
                    a
                } else {
                    a - 1
                };
                let ob = if b < j {
                    b
                } else {
                    b - 1
                };
                if a == j {
                    assert(out@[b] == old_out[ob]);
                } else if b == j {
                    assert(out@[a] == old_out[oa]);
                } else {
                    assert(out@[a] == old_out[oa]);
                    assert(out@[b] == old_out[ob]);
                }
            }
            assert forall|a: int, b: int| 0 <= a < b < out@.len() implies #[trigger] origin[a]
                != #[trigger] origin[b] by {
                let oa = if a < j {
                    a
                } else {
                    a - 1
                };
                let ob = if b < j {
                    b
                } else {
                    b - 1
                };
                if a == j {
                    assert(origin[b] == old_origin[ob]);
                } else if b == j {
                    assert(origin[a] == old_origin[oa]);
                } else {
                    assert(origin[a] == old_origin[oa]);
                    assert(origin[b] == old_origin[ob]);
                }
            }
            assert forall|a: int, b: int|
                0 <= a < b < out@.len() && title_key(#[trigger] out@[a]) == title_key(
                    #[trigger] out@[b],
                ) implies origin[a] < origin[b] by {
                let oa = if a < j {
                    a
                } else {
                    a - 1
                };
                let ob = if b < j {
                    b
                } else {
                    b - 1
                };
                if a == j {
                    assert(out@[b] == old_out[ob]);
                    assert(title_key(old_out[ob]) != k@);
                } else if b == j {
                    assert(origin[a] == old_origin[oa]);
                } else {
                    assert(out@[a] == old_out[oa]);
                    assert(out@[b] == old_out[ob]);
                    assert(origin[a] == old_origin[oa]);
                    assert(origin[b] == old_origin[ob]);
                }
            }
            assert(out@.to_multiset() == old_out.to_multiset().insert(w));
            assert(before_rest.to_multiset() == rest@.to_multiset().insert(w)) by {
                assert(before_rest.remove(0) == rest@);
                assert(before_rest.remove(0).to_multiset() == before_rest.to_multiset().remove(
                    before_rest[0],
                ));
                assert(before_rest[0] == w);
            }
            assert(out@.to_multiset().add(rest@.to_multiset()) =~= input.to_multiset());
            taken = taken + 1;
        }
    }
    proof {
        assert(rest@.to_multiset() =~= vstd::multiset::Multiset::<WindowInfo>::empty());
        assert(out@.to_multiset().add(rest@.to_multiset()) =~= out@.to_multiset());
        assert(stable_reordering(input, out@, origin));
    }
    out
}

} // verus!
