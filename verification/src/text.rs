use crate::bytes::bytes_eq;
use vstd::prelude::*;
use vstd::string::*;
use vstd::utf8::*;

verus! {

/// The character of one decimal digit.
pub open spec fn spec_digit(d: nat) -> char
    recommends
        d < 10,
{
    (48 + d) as u8 as char
}

/// The decimal digits of a number, without sign or leading zeros.
pub open spec fn spec_decimal(n: nat) -> Seq<char>
    decreases n,
{
    if n < 10 {
        seq![spec_digit(n)]
    } else {
        spec_decimal(n / 10).push(spec_digit(n % 10))
    }
}

fn digit_str(d: u64) -> (s: &'static str)
    requires
        d < 10,
    ensures
        s@ == seq![spec_digit(d as nat)],
{
    proof {
        reveal_strlit("0");
        reveal_strlit("1");
        reveal_strlit("2");
        reveal_strlit("3");
        reveal_strlit("4");
        reveal_strlit("5");
        reveal_strlit("6");
        reveal_strlit("7");
        reveal_strlit("8");
        reveal_strlit("9");
    }
    let s = if d == 0 {
        "0"
    } else if d == 1 {
        "1"
    } else if d == 2 {
        "2"
    } else if d == 3 {
        "3"
    } else if d == 4 {
        "4"
    } else if d == 5 {
        "5"
    } else if d == 6 {
        "6"
    } else if d == 7 {
        "7"
    } else if d == 8 {
        "8"
    } else {
        "9"
    };
    assert(s@ =~= seq![spec_digit(d as nat)]);
    s
}

/// A number written in decimal.
pub fn decimal(n: u64) -> (s: String)
    ensures
        s@ == spec_decimal(n as nat),
    decreases n,
{
    if n < 10 {
        String::from_str(digit_str(n))
    } else {
        let mut s = decimal(n / 10);
        s.append(digit_str(n % 10));
        assert(s@ =~= spec_decimal(n as nat));
        s
    }
}

/// A decimal number has at least one digit, and only digits.
pub proof fn lemma_decimal_digits(n: nat)
    ensures
        spec_decimal(n).len() >= 1,
        forall|i: int| 0 <= i < spec_decimal(n).len() ==> '0' <= #[trigger] spec_decimal(n)[i] <= '9',
    decreases n,
{
    if n >= 10 {
        lemma_decimal_digits(n / 10);
    }
}

/// Whether two strings are the same.
pub fn str_eq(a: &str, b: &str) -> (same: bool)
    ensures
        same == (a@ == b@),
{
    let same = bytes_eq(a.as_bytes(), b.as_bytes());
    proof {
        broadcast use encode_utf8_decode_utf8;

        if same {
            assert(decode_utf8(encode_utf8(a@)) == decode_utf8(encode_utf8(b@)));
        }
    }
    same
}

/// A copy of a string.
pub fn clone_string(s: &String) -> (copy: String)
    ensures
        copy@ == s@,
        copy == *s,
{
    s.clone()
}

/// Whether `a` comes before `b` in the lexicographic order of byte strings:
/// at the first place where they differ `a` has the lower byte, or `a` is a
/// proper prefix of `b`.
pub open spec fn bytes_lt(a: Seq<u8>, b: Seq<u8>) -> bool
    decreases a.len(),
{
    if b.len() == 0 {
        false
    } else if a.len() == 0 {
        true
    } else if a[0] != b[0] {
        a[0] < b[0]
    } else {
        bytes_lt(a.drop_first(), b.drop_first())
    }
}

/// Whether the pair `a` comes before the pair `b` or equals it: by byte
/// string, then by number.
pub open spec fn tagged_le(a: (Seq<u8>, usize), b: (Seq<u8>, usize)) -> bool {
    bytes_lt(a.0, b.0) || (a.0 == b.0 && a.1 <= b.1)
}

/// A pair of a byte string and a number, as plain values.
pub open spec fn tagged_view(t: (Vec<u8>, usize)) -> (Seq<u8>, usize) {
    (t.0@, t.1)
}

/// `<[T]>::sort` of std on pairs of a byte string and a number: the list
/// keeps its elements and ends up in ascending order, which for such pairs
/// is the lexicographic order of the byte strings and, among equal byte
/// strings, the order of the numbers.
#[verifier::external_body]
fn sort_tagged(v: &mut Vec<(Vec<u8>, usize)>)
    ensures
        final(v)@.len() == old(v)@.len(),
        final(v)@.map_values(|t: (Vec<u8>, usize)| tagged_view(t)).to_multiset() == old(v)@.map_values(
            |t: (Vec<u8>, usize)| tagged_view(t),
        ).to_multiset(),
        forall|i: int, j: int|
            0 <= i < j < final(v)@.len() ==> tagged_le(
                tagged_view(#[trigger] final(v)@[i]),
                tagged_view(#[trigger] final(v)@[j]),
            ),
{
    v.sort();
}

/// Whether `order` lists the places `0..n` of `keys`, each once, so that
/// the keys stand in ascending lexicographic order.
pub open spec fn is_sorted_order(keys: Seq<Seq<u8>>, order: Seq<usize>) -> bool {
    &&& order.len() == keys.len()
    &&& order.no_duplicates()
    &&& forall|j: int| 0 <= j < order.len() ==> (#[trigger] order[j]) < keys.len()
    &&& forall|i: int| 0 <= i < keys.len() ==> #[trigger] order.contains(i as usize)
    &&& forall|a: int, b: int|
        0 <= a < b < order.len() ==> tagged_le(
            (keys[(#[trigger] order[a]) as int], order[a]),
            (keys[(#[trigger] order[b]) as int], order[b]),
        )
}

/// The places of the byte strings in ascending lexicographic order; equal
/// byte strings keep the order of their places.
pub fn sorted_order(keys: &Vec<Vec<u8>>) -> (order: Vec<usize>)
    ensures
        is_sorted_order(keys@.map_values(|k: Vec<u8>| k@), order@),
{
    let ghost views = keys@.map_values(|k: Vec<u8>| k@);
    let mut tagged: Vec<(Vec<u8>, usize)> = Vec::new();
    let mut i: usize = 0;
    while i < keys.len()
        invariant
            0 <= i <= keys.len(),
            tagged@.len() == i,
            forall|j: int| 0 <= j < i ==> tagged_view(#[trigger] tagged@[j]) == (keys@[j]@, j as usize),
        decreases keys.len() - i,
    {
        tagged.push((crate::bytes::clone_bytes(keys[i].as_slice()), i));
        i = i + 1;
    }
    let ghost before = tagged@.map_values(|t: (Vec<u8>, usize)| tagged_view(t));
    sort_tagged(&mut tagged);
    let ghost after = tagged@.map_values(|t: (Vec<u8>, usize)| tagged_view(t));
    proof {
        broadcast use vstd::seq_lib::group_to_multiset_ensures;

        assert forall|j: int| 0 <= j < after.len() implies (#[trigger] after[j]).1 < keys@.len()
            && after[j].0 == keys@[after[j].1 as int]@ by {
            assert(after.contains(after[j]));
            assert(before.to_multiset().count(after[j]) > 0);
            assert(before.contains(after[j]));
            let k = choose|k: int| 0 <= k < before.len() && before[k] == after[j];
            assert(before[k] == tagged_view((keys@[k], k as usize))) by {
                assert(before[k] == (keys@[k]@, k as usize));
            }
        }
        assert forall|k: int| 0 <= k < keys@.len() implies after.contains(
            (keys@[k]@, k as usize),
        ) by {
            assert(before[k] == (keys@[k]@, k as usize));
            assert(before.contains(before[k]));
            assert(after.to_multiset().count(before[k]) > 0);
        }
    }
    let mut order: Vec<usize> = Vec::new();
    let mut j: usize = 0;
    while j < tagged.len()
        invariant
            0 <= j <= tagged.len(),
            order@.len() == j,
            forall|k: int| 0 <= k < j ==> (#[trigger] order@[k]) == tagged@[k].1,
        decreases tagged.len() - j,
    {
        order.push(tagged[j].1);
        j = j + 1;
    }
    proof {
        assert(order@.no_duplicates()) by {
            assert(before.no_duplicates()) by {
                assert forall|a: int, b: int|
                    0 <= a < before.len() && 0 <= b < before.len() && a != b implies before[a]
                    != before[b] by {
                    assert(before[a] == (keys@[a]@, a as usize));
                    assert(before[b] == (keys@[b]@, b as usize));
                }
            }
            before.lemma_multiset_has_no_duplicates();
            after.lemma_multiset_has_no_duplicates_conv();
            assert forall|a: int, b: int|
                0 <= a < order@.len() && 0 <= b < order@.len() && a != b implies order@[a]
                != order@[b] by {
                assert(after[a] != after[b]);
                assert(after[a].0 == keys@[after[a].1 as int]@);
                assert(after[b].0 == keys@[after[b].1 as int]@);
            }
        }
        assert forall|k: int| 0 <= k < order@.len() implies (#[trigger] order@[k]) < views.len() by {
            assert(after[k].1 < keys@.len());
        }
        assert forall|k: int| 0 <= k < views.len() implies #[trigger] order@.contains(k as usize) by {
            assert(after.contains((keys@[k]@, k as usize)));
            let m = choose|m: int| 0 <= m < after.len() && after[m] == (keys@[k]@, k as usize);
            assert(order@[m] == k as usize);
        }
        assert forall|a: int, b: int| 0 <= a < b < order@.len() implies tagged_le(
            (views[(#[trigger] order@[a]) as int], order@[a]),
            (views[(#[trigger] order@[b]) as int], order@[b]),
        ) by {
            assert(after[a].0 == keys@[after[a].1 as int]@);
            assert(after[b].0 == keys@[after[b].1 as int]@);
            assert(tagged_le(tagged_view(tagged@[a]), tagged_view(tagged@[b])));
        }
    }
    order
}

/// The bytes of each string.
pub fn string_bytes(keys: &Vec<String>) -> (bytes: Vec<Vec<u8>>)
    ensures
        bytes@.len() == keys@.len(),
        forall|i: int| 0 <= i < keys@.len() ==> (#[trigger] bytes@[i])@ == encode_utf8(keys@[i]@),
{
    let mut bytes: Vec<Vec<u8>> = Vec::new();
    let mut i: usize = 0;
    while i < keys.len()
        invariant
            0 <= i <= keys.len(),
            bytes@.len() == i,
            forall|j: int| 0 <= j < i ==> (#[trigger] bytes@[j])@ == encode_utf8(keys@[j]@),
        decreases keys.len() - i,
    {
        bytes.push(keys[i].as_str().as_bytes_vec());
        i = i + 1;
    }
    bytes
}

/// Whether `sorted` holds the strings of `keys`, all of them, in ascending
/// lexicographic order of their bytes.
pub open spec fn is_sorted_strings(keys: Seq<String>, sorted: Seq<String>) -> bool {
    &&& sorted.len() == keys.len()
    &&& forall|j: int| 0 <= j < sorted.len() ==> keys.contains(#[trigger] sorted[j])
    &&& forall|i: int| 0 <= i < keys.len() ==> sorted.contains(#[trigger] keys[i])
    &&& forall|a: int, b: int|
        0 <= a < b < sorted.len() ==> !bytes_lt(
            encode_utf8((#[trigger] sorted[b])@),
            encode_utf8((#[trigger] sorted[a])@),
        )
}

/// No byte string comes before itself.
pub proof fn lemma_bytes_lt_irreflexive(a: Seq<u8>)
    ensures
        !bytes_lt(a, a),
    decreases a.len(),
{
    if a.len() > 0 {
        lemma_bytes_lt_irreflexive(a.drop_first());
    }
}

/// Of two byte strings only one comes before the other.
pub proof fn lemma_bytes_lt_asymmetric(a: Seq<u8>, b: Seq<u8>)
    requires
        bytes_lt(a, b),
    ensures
        !bytes_lt(b, a),
    decreases a.len(),
{
    if a.len() > 0 && b.len() > 0 && a[0] == b[0] {
        lemma_bytes_lt_asymmetric(a.drop_first(), b.drop_first());
    }
}

/// The strings in ascending lexicographic order of their bytes.
pub fn sorted_strings(keys: &Vec<String>) -> (sorted: Vec<String>)
    ensures
        is_sorted_strings(keys@, sorted@),
{
    let bytes = string_bytes(keys);
    let order = sorted_order(&bytes);
    let ghost views = bytes@.map_values(|k: Vec<u8>| k@);
    let mut sorted: Vec<String> = Vec::new();
    let mut j: usize = 0;
    while j < order.len()
        invariant
            0 <= j <= order.len(),
            sorted@.len() == j,
            is_sorted_order(views, order@),
            views.len() == keys@.len(),
            forall|k: int| 0 <= k < j ==> (#[trigger] sorted@[k]) == keys@[order@[k] as int],
        decreases order.len() - j,
    {
        sorted.push(clone_string(&keys[order[j]]));
        j = j + 1;
    }
    proof {
        assert forall|k: int| 0 <= k < sorted@.len() implies keys@.contains(#[trigger] sorted@[k]) by {
            assert(sorted@[k] == keys@[order@[k] as int]);
        }
        assert forall|i: int| 0 <= i < keys@.len() implies sorted@.contains(#[trigger] keys@[i]) by {
            assert(order@.contains(i as usize));
            let m = choose|m: int| 0 <= m < order@.len() && order@[m] == i as usize;
            assert(sorted@[m] == keys@[i]);
        }
        assert forall|a: int, b: int| 0 <= a < b < sorted@.len() implies !bytes_lt(
            encode_utf8((#[trigger] sorted@[b])@),
            encode_utf8((#[trigger] sorted@[a])@),
        ) by {
            let ka = views[order@[a] as int];
            let kb = views[order@[b] as int];
            assert(tagged_le((ka, order@[a]), (kb, order@[b])));
            assert(ka == encode_utf8(sorted@[a]@));
            assert(kb == encode_utf8(sorted@[b]@));
            if bytes_lt(ka, kb) {
                lemma_bytes_lt_asymmetric(ka, kb);
            } else {
                lemma_bytes_lt_irreflexive(ka);
            }
        }
    }
    sorted
}

/// Whether the byte string `b` is one of `list`.
pub open spec fn holds_bytes(list: Seq<Vec<u8>>, b: Seq<u8>) -> bool {
    exists|i: int| 0 <= i < list.len() && (#[trigger] list[i])@ == b
}

/// Whether `sorted` holds the byte strings of `keys`, all of them, in
/// ascending lexicographic order.
pub open spec fn is_sorted_bytes(keys: Seq<Vec<u8>>, sorted: Seq<Vec<u8>>) -> bool {
    &&& sorted.len() == keys.len()
    &&& forall|j: int| 0 <= j < sorted.len() ==> holds_bytes(keys, (#[trigger] sorted[j])@)
    &&& forall|i: int| 0 <= i < keys.len() ==> holds_bytes(sorted, (#[trigger] keys[i])@)
    &&& forall|a: int, b: int|
        0 <= a < b < sorted.len() ==> !bytes_lt((#[trigger] sorted[b])@, (#[trigger] sorted[a])@)
}

/// The byte strings in ascending lexicographic order.
pub fn sorted_byte_strings(keys: &Vec<Vec<u8>>) -> (sorted: Vec<Vec<u8>>)
    ensures
        is_sorted_bytes(keys@, sorted@),
{
    let order = sorted_order(keys);
    let ghost views = keys@.map_values(|k: Vec<u8>| k@);
    let mut sorted: Vec<Vec<u8>> = Vec::new();
    let mut j: usize = 0;
    while j < order.len()
        invariant
            0 <= j <= order.len(),
            sorted@.len() == j,
            is_sorted_order(views, order@),
            views == keys@.map_values(|k: Vec<u8>| k@),
            forall|k: int| 0 <= k < j ==> (#[trigger] sorted@[k])@ == keys@[order@[k] as int]@,
        decreases order.len() - j,
    {
        sorted.push(crate::bytes::clone_bytes(keys[order[j]].as_slice()));
        j = j + 1;
    }
    proof {
        assert forall|k: int| 0 <= k < sorted@.len() implies holds_bytes(
            keys@,
            (#[trigger] sorted@[k])@,
        ) by {
            assert(keys@[order@[k] as int]@ == sorted@[k]@);
        }
        assert forall|i: int| 0 <= i < keys@.len() implies holds_bytes(
            sorted@,
            (#[trigger] keys@[i])@,
        ) by {
            assert(order@.contains(i as usize));
            let m = choose|m: int| 0 <= m < order@.len() && order@[m] == i as usize;
            assert(sorted@[m]@ == keys@[i]@);
        }
        assert forall|a: int, b: int| 0 <= a < b < sorted@.len() implies !bytes_lt(
            (#[trigger] sorted@[b])@,
            (#[trigger] sorted@[a])@,
        ) by {
            let ka = views[order@[a] as int];
            let kb = views[order@[b] as int];
            assert(tagged_le((ka, order@[a]), (kb, order@[b])));
            if bytes_lt(ka, kb) {
                lemma_bytes_lt_asymmetric(ka, kb);
            } else {
                lemma_bytes_lt_irreflexive(ka);
            }
        }
    }
    sorted
}

/// Different numbers are written differently.
pub proof fn lemma_decimal_injective(a: nat, b: nat)
    requires
        spec_decimal(a) == spec_decimal(b),
    ensures
        a == b,
    decreases a,
{
    lemma_decimal_digits(a);
    lemma_decimal_digits(b);
    if a < 10 && b < 10 {
        assert(spec_decimal(a)[0] == spec_decimal(b)[0]);
        assert(spec_digit(a) == spec_digit(b));
        assert((48 + a) as u8 == (48 + b) as u8);
    } else if a >= 10 && b >= 10 {
        let da = spec_decimal(a / 10);
        let db = spec_decimal(b / 10);
        assert(spec_decimal(a).drop_last() =~= da);
        assert(spec_decimal(b).drop_last() =~= db);
        assert(spec_decimal(a).last() == spec_digit(a % 10));
        assert(spec_decimal(b).last() == spec_digit(b % 10));
        lemma_decimal_injective(a / 10, b / 10);
        assert((48 + a % 10) as u8 == (48 + b % 10) as u8);
    } else if a >= 10 {
        lemma_decimal_digits(a / 10);
        assert(spec_decimal(a).len() >= 2);
        assert(spec_decimal(b).len() == 1);
    } else {
        lemma_decimal_digits(b / 10);
        assert(spec_decimal(b).len() >= 2);
        assert(spec_decimal(a).len() == 1);
    }
}

/// `String::from_utf8` of std: the string that bytes encode, if they are
/// valid UTF-8.
#[verifier::external_body]
pub(crate) fn string_from_utf8(bytes: &[u8]) -> (r: Option<String>)
    ensures
        r.is_some() == valid_utf8(bytes@),
        r.is_some() ==> r.unwrap()@ == decode_utf8(bytes@),
{
    String::from_utf8(bytes.to_vec()).ok()
}

/// Of two byte strings one comes before the other, or they are the same.
pub proof fn lemma_bytes_lt_total(a: Seq<u8>, b: Seq<u8>)
    ensures
        bytes_lt(a, b) || a == b || bytes_lt(b, a),
    decreases a.len(),
{
    if a.len() > 0 && b.len() > 0 && a[0] == b[0] {
        lemma_bytes_lt_total(a.drop_first(), b.drop_first());
        if a.drop_first() == b.drop_first() {
            assert(a =~= seq![a[0]] + a.drop_first());
            assert(b =~= seq![b[0]] + b.drop_first());
        }
    } else if a.len() == 0 && b.len() == 0 {
        assert(a =~= b);
    }
}

/// What comes before an earlier byte string comes before a later one.
pub proof fn lemma_bytes_lt_transitive(a: Seq<u8>, b: Seq<u8>, c: Seq<u8>)
    requires
        bytes_lt(a, b),
        bytes_lt(b, c),
    ensures
        bytes_lt(a, c),
    decreases a.len(),
{
    if a.len() > 0 && b.len() > 0 && c.len() > 0 && a[0] == b[0] && b[0] == c[0] {
        lemma_bytes_lt_transitive(a.drop_first(), b.drop_first(), c.drop_first());
    }
}

/// The texts of the strings, in order.
pub open spec fn spec_texts(strings: Seq<String>) -> Seq<Seq<char>> {
    Seq::new(strings.len(), |i: int| strings[i]@)
}

/// The names `names`, and after them those of `more` that are not yet among
/// them, each once, in order.
pub open spec fn spec_added_once(names: Seq<Seq<char>>, more: Seq<Seq<char>>) -> Seq<Seq<char>>
    decreases more.len(),
{
    if more.len() == 0 {
        names
    } else {
        let before = spec_added_once(names, more.drop_last());
        if before.contains(more.last()) {
            before
        } else {
            before.push(more.last())
        }
    }
}

/// Whether `keys` holds the strings of `ids`, each once, in strictly
/// ascending lexicographic order of their bytes.
pub open spec fn is_sorted_unique(ids: Seq<String>, keys: Seq<String>) -> bool {
    &&& forall|j: int|
        0 <= j < keys.len() ==> exists|i: int|
            0 <= i < ids.len() && (#[trigger] ids[i])@ == (#[trigger] keys[j])@
    &&& forall|i: int| 0 <= i < ids.len() ==> spec_holds((#[trigger] ids[i])@, keys)
    &&& forall|a: int, b: int|
        0 <= a < b < keys.len() ==> bytes_lt(
            encode_utf8((#[trigger] keys[a])@),
            encode_utf8((#[trigger] keys[b])@),
        )
}

/// Whether the string is one of the list.
pub open spec fn spec_holds(s: Seq<char>, list: Seq<String>) -> bool {
    exists|j: int| 0 <= j < list.len() && (#[trigger] list[j])@ == s
}

/// The distinct strings of the list, in ascending lexicographic order.
pub fn sorted_unique_strings(ids: &Vec<String>) -> (keys: Vec<String>)
    ensures
        is_sorted_unique(ids@, keys@),
{
    let sorted = sorted_strings(ids);
    let mut keys: Vec<String> = Vec::new();
    let mut i: usize = 0;
    while i < sorted.len()
        invariant
            0 <= i <= sorted.len(),
            is_sorted_strings(ids@, sorted@),
            keys@.len() <= i,
            i > 0 ==> keys@.len() > 0 && keys@.last()@ == sorted@[i - 1]@,
            forall|j: int|
                0 <= j < keys@.len() ==> exists|k: int|
                    0 <= k < i && (#[trigger] sorted@[k])@ == (#[trigger] keys@[j])@,
            forall|k: int| 0 <= k < i ==> spec_holds((#[trigger] sorted@[k])@, keys@),
            forall|a: int, b: int|
                0 <= a < b < keys@.len() ==> bytes_lt(
                    encode_utf8((#[trigger] keys@[a])@),
                    encode_utf8((#[trigger] keys@[b])@),
                ),
        decreases sorted.len() - i,
    {
        let ghost before = keys@;
        let fresh = i == 0 || !str_eq(sorted[i].as_str(), sorted[i - 1].as_str());
        if fresh {
            keys.push(clone_string(&sorted[i]));
            proof {
                broadcast use encode_utf8_decode_utf8;

                let now = keys@;
                assert forall|j: int| 0 <= j < now.len() implies exists|k: int|
                    0 <= k < i + 1 && (#[trigger] sorted@[k])@ == (#[trigger] now[j])@ by {
                    if j < before.len() {
                        let k = choose|k: int|
                            0 <= k < i && (#[trigger] sorted@[k])@ == before[j]@;
                        assert(sorted@[k]@ == now[j]@);
                    } else {
                        assert(sorted@[i as int]@ == now[j]@);
                    }
                }
                assert forall|k: int| 0 <= k < i + 1 implies spec_holds(
                    (#[trigger] sorted@[k])@,
                    now,
                ) by {
                    if k < i {
                        let j = choose|j: int|
                            0 <= j < before.len() && (#[trigger] before[j])@ == sorted@[k]@;
                        assert(now[j]@ == sorted@[k]@);
                    } else {
                        assert(now[before.len() as int]@ == sorted@[k]@);
                    }
                }
                assert forall|a: int, b: int| 0 <= a < b < now.len() implies bytes_lt(
                    encode_utf8((#[trigger] now[a])@),
                    encode_utf8((#[trigger] now[b])@),
                ) by {
                    if b < before.len() {
                        assert(now[a] == before[a]);
                        assert(now[b] == before[b]);
                    } else {
                        assert(now[a] == before[a]);
                        let last = encode_utf8(sorted@[i - 1]@);
                        let cur = encode_utf8(sorted@[i as int]@);
                        assert(!bytes_lt(cur, last));
                        lemma_bytes_lt_total(last, cur);
                        if last == cur {
                            assert(decode_utf8(last) == decode_utf8(cur));
                        }
                        assert(bytes_lt(last, cur));
                        assert(before.last()@ == sorted@[i - 1]@);
                        if a < before.len() - 1 {
                            assert(bytes_lt(
                                encode_utf8(before[a]@),
                                encode_utf8(before[before.len() - 1]@),
                            ));
                            lemma_bytes_lt_transitive(encode_utf8(before[a]@), last, cur);
                        }
                    }
                }
            }
        } else {
            proof {
                assert forall|k: int| 0 <= k < i + 1 implies spec_holds(
                    (#[trigger] sorted@[k])@,
                    keys@,
                ) by {
                    if k == i {
                        assert(keys@[keys@.len() - 1]@ == sorted@[k]@);
                    }
                }
                assert forall|j: int| 0 <= j < keys@.len() implies exists|k: int|
                    0 <= k < i + 1 && (#[trigger] sorted@[k])@ == (#[trigger] keys@[j])@ by {
                    let k = choose|k: int| 0 <= k < i && (#[trigger] sorted@[k])@ == keys@[j]@;
                    assert(sorted@[k]@ == keys@[j]@);
                }
            }
        }
        i = i + 1;
    }
    proof {
        assert forall|j: int| 0 <= j < keys@.len() implies exists|m: int|
            0 <= m < ids@.len() && (#[trigger] ids@[m])@ == (#[trigger] keys@[j])@ by {
            let k = choose|k: int|
                0 <= k < sorted@.len() && (#[trigger] sorted@[k])@ == keys@[j]@;
            assert(ids@.contains(sorted@[k]));
            let m = choose|m: int| 0 <= m < ids@.len() && ids@[m] == sorted@[k];
            assert(ids@[m]@ == keys@[j]@);
        }
        assert forall|m: int| 0 <= m < ids@.len() implies spec_holds((#[trigger] ids@[m])@, keys@) by {
            assert(sorted@.contains(ids@[m]));
            let k = choose|k: int| 0 <= k < sorted@.len() && sorted@[k] == ids@[m];
            assert(spec_holds(sorted@[k]@, keys@));
        }
    }
    keys
}

} // verus!
