//! What the roots of events commit to.

use vstd::prelude::*;
use vstd::arithmetic::power2::{lemma2_to64, lemma_pow2_unfold, pow2};
use vstd::utf8::{encode_utf8, is_ascii_chars_encode_utf8, is_ascii_chars_nat_bound};
use crate::bytes::{sorted_texts, sorted_texts_unique, text_order, text_order_total};
use crate::hamt::build_laws::two_places;
use crate::json::{json_bytes, json_fault, string_bytes, Json};
use crate::json_laws::{
    integer_bytes_stand_for, numbers_within_range, scalar_bytes, string_bytes_injective,
};
use crate::primitives::sha3_256_bytes;
use super::{
    content_digest, event_root_digest, field_fault, field_names, field_place, fields_fault,
    first_fault, first_fault_stays, fold_path, header_fields, header_rooted, inner_digest,
    leaf_digest, leaf_path_verifies, name_rank, name_sorted, named_digest, optional_text,
    path_contents, repeated, sorted_digests, sorted_names, split_point, split_point_range,
    tree_path, tree_root, EventHeaderRoot, Field, Header, MerkleError, MerkleFault, ProofStep, Side,
};

verus! {

/// Two inputs do not collide.
pub open spec fn distinct_digests(a: Seq<u8>, b: Seq<u8>) -> bool {
    sha3_256_bytes(a) == sha3_256_bytes(b) ==> a == b
}

/// The marks that leaves, inner nodes and events begin with are bytes of one length,
/// and different.
proof fn marks_differ()
    ensures
        encode_utf8("msc4511:leaf:v1"@).len() == 15,
        encode_utf8("msc4511:node:v1"@).len() == 15,
        encode_utf8("msc4511:root:v1"@).len() == 15,
        encode_utf8("msc4511:leaf:v1"@)[8] != encode_utf8("msc4511:node:v1"@)[8],
        encode_utf8("msc4511:leaf:v1"@)[8] != encode_utf8("msc4511:root:v1"@)[8],
        encode_utf8("msc4511:node:v1"@)[8] != encode_utf8("msc4511:root:v1"@)[8],
{
    reveal_strlit("msc4511:leaf:v1");
    reveal_strlit("msc4511:node:v1");
    reveal_strlit("msc4511:root:v1");
    is_ascii_chars_encode_utf8("msc4511:leaf:v1"@);
    is_ascii_chars_encode_utf8("msc4511:node:v1"@);
    is_ascii_chars_encode_utf8("msc4511:root:v1"@);
    is_ascii_chars_nat_bound("msc4511:leaf:v1"@);
    is_ascii_chars_nat_bound("msc4511:node:v1"@);
    is_ascii_chars_nat_bound("msc4511:root:v1"@);
}

/// Byte strings without a zero byte that end in one are read back from what follows.
proof fn zero_ends(a: Seq<u8>, s: Seq<u8>, b: Seq<u8>, t: Seq<u8>)
    requires
        !a.contains(0),
        !b.contains(0),
        a + seq![0u8] + s == b + seq![0u8] + t,
    ensures
        a == b,
        s == t,
{
    let w = a + seq![0u8] + s;
    if a.len() < b.len() {
        assert(w[a.len() as int] == 0);
        assert((b + seq![0u8] + t)[a.len() as int] == b[a.len() as int]);
    } else if b.len() < a.len() {
        assert((b + seq![0u8] + t)[b.len() as int] == 0);
        assert(w[b.len() as int] == a[b.len() as int]);
    } else {
        assert(a =~= w.take(a.len() as int));
        assert(b =~= (b + seq![0u8] + t).take(a.len() as int));
        assert(s =~= w.skip(a.len() as int + 1));
        assert(t =~= (b + seq![0u8] + t).skip(a.len() as int + 1));
    }
}

/// A leaf commits to its name and to its value.
pub proof fn leaf_binds(name: Seq<u8>, value: Seq<u8>, other_name: Seq<u8>, other_value: Seq<u8>)
    requires
        !name.contains(0),
        !other_name.contains(0),
        leaf_digest(name, value) == leaf_digest(other_name, other_value),
        distinct_digests(
            encode_utf8("msc4511:leaf:v1"@) + name + seq![0u8] + value,
            encode_utf8("msc4511:leaf:v1"@) + other_name + seq![0u8] + other_value,
        ),
    ensures
        name == other_name,
        value == other_value,
{
    marks_differ();
    let mark = encode_utf8("msc4511:leaf:v1"@);
    let a = name + seq![0u8] + value;
    let b = other_name + seq![0u8] + other_value;
    assert(a =~= (mark + name + seq![0u8] + value).skip(15));
    assert(b =~= (mark + other_name + seq![0u8] + other_value).skip(15));
    zero_ends(name, value, other_name, other_value);
}

/// An inner node commits to its children, each on its side.
pub proof fn node_binds(left: Seq<u8>, right: Seq<u8>, other_left: Seq<u8>, other_right: Seq<u8>)
    requires
        left.len() == other_left.len(),
        inner_digest(left, right) == inner_digest(other_left, other_right),
        distinct_digests(
            encode_utf8("msc4511:node:v1"@) + left + right,
            encode_utf8("msc4511:node:v1"@) + other_left + other_right,
        ),
    ensures
        left == other_left,
        right == other_right,
{
    marks_differ();
    let mark = encode_utf8("msc4511:node:v1"@);
    let (a, b) = (mark + left + right, mark + other_left + other_right);
    let n = left.len() as int;
    assert(left =~= a.subrange(15, 15 + n));
    assert(other_left =~= b.subrange(15, 15 + n));
    assert(right =~= a.skip(15 + n));
    assert(other_right =~= b.skip(15 + n));
}

/// A leaf is never taken for an inner node.
pub proof fn leaf_is_no_node(name: Seq<u8>, value: Seq<u8>, left: Seq<u8>, right: Seq<u8>)
    requires
        distinct_digests(
            encode_utf8("msc4511:leaf:v1"@) + name + seq![0u8] + value,
            encode_utf8("msc4511:node:v1"@) + left + right,
        ),
    ensures
        leaf_digest(name, value) != inner_digest(left, right),
{
    marks_differ();
    let a = encode_utf8("msc4511:leaf:v1"@) + name + seq![0u8] + value;
    let b = encode_utf8("msc4511:node:v1"@) + left + right;
    assert(a[8] == encode_utf8("msc4511:leaf:v1"@)[8]);
    assert(b[8] == encode_utf8("msc4511:node:v1"@)[8]);
}

/// An event commits to each of its five components, in their places.
pub proof fn event_root_binds(
    prev: Seq<u8>,
    auth: Seq<u8>,
    header: Seq<u8>,
    content: Seq<u8>,
    other: Seq<u8>,
    second: (Seq<u8>, Seq<u8>, Seq<u8>, Seq<u8>, Seq<u8>),
)
    requires
        prev.len() == 32 && auth.len() == 32 && header.len() == 32 && content.len() == 32,
        second.0.len() == 32 && second.1.len() == 32 && second.2.len() == 32 && second.3.len()
            == 32,
        event_root_digest(prev, auth, header, content, other) == event_root_digest(
            second.0,
            second.1,
            second.2,
            second.3,
            second.4,
        ),
        distinct_digests(
            encode_utf8("msc4511:root:v1"@) + prev + auth + header + content + other,
            encode_utf8("msc4511:root:v1"@) + second.0 + second.1 + second.2 + second.3 + second.4,
        ),
    ensures
        (prev, auth, header, content, other) == second,
{
    marks_differ();
    let mark = encode_utf8("msc4511:root:v1"@);
    let a = mark + prev + auth + header + content + other;
    let b = mark + second.0 + second.1 + second.2 + second.3 + second.4;
    assert(prev =~= a.subrange(15, 47) && second.0 =~= b.subrange(15, 47));
    assert(auth =~= a.subrange(47, 79) && second.1 =~= b.subrange(47, 79));
    assert(header =~= a.subrange(79, 111) && second.2 =~= b.subrange(79, 111));
    assert(content =~= a.subrange(111, 143) && second.3 =~= b.subrange(111, 143));
    assert(other =~= a.skip(143) && second.4 =~= b.skip(143));
}

/// The digest of content proves the part that redaction keeps with the other part's
/// digest alone, and the other way round.
pub proof fn content_proves_parts(kept: Seq<u8>, stripped: Seq<u8>)
    ensures
        fold_path(kept, seq![(Side::Right, stripped)]) == content_digest(kept, stripped),
        fold_path(stripped, seq![(Side::Left, kept)]) == content_digest(kept, stripped),
{
    let a = seq![(Side::Right, stripped)];
    let b = seq![(Side::Left, kept)];
    assert(a.drop_last() =~= Seq::<(Side, Seq<u8>)>::empty());
    assert(b.drop_last() =~= Seq::<(Side, Seq<u8>)>::empty());
    reveal_with_fuel(fold_path, 2);
}

/// A step of a path combines the running hash with the sibling on its side.
pub proof fn path_steps(leaf: Seq<u8>, path: Seq<(Side, Seq<u8>)>, sibling: Seq<u8>)
    ensures
        fold_path(leaf, Seq::empty()) == leaf,
        fold_path(leaf, path.push((Side::Left, sibling))) == inner_digest(
            sibling,
            fold_path(leaf, path),
        ),
        fold_path(leaf, path.push((Side::Right, sibling))) == inner_digest(
            fold_path(leaf, path),
            sibling,
        ),
{
    assert(path.push((Side::Left, sibling)).drop_last() =~= path);
    assert(path.push((Side::Right, sibling)).drop_last() =~= path);
}

/// The left part of a tree takes the largest power of two of leaves that leaves some
/// for the right.
pub proof fn split_is_power(n: nat) -> (exponent: nat)
    requires
        n >= 2,
    ensures
        split_point(n) == pow2(exponent),
        pow2(exponent) < n <= 2 * pow2(exponent),
    decreases n,
{
    split_point_range(n);
    if n <= 2 {
        lemma2_to64();
        0
    } else {
        let e = split_is_power((n + 1) / 2);
        lemma_pow2_unfold(e + 1);
        e + 1
    }
}

/// No two inner nodes in the same place of two trees collide.
pub open spec fn trees_distinct(a: Seq<Seq<u8>>, b: Seq<Seq<u8>>) -> bool
    decreases a.len(),
{
    let k = split_point(a.len()) as int;
    a.len() >= 2 && 0 < k < a.len() ==> {
        let (p, q) = (tree_root(a.take(k)), tree_root(a.skip(k)));
        let (r, s) = (tree_root(b.take(k)), tree_root(b.skip(k)));
        &&& p.len() == r.len()
        &&& distinct_digests(
            encode_utf8("msc4511:node:v1"@) + p + q,
            encode_utf8("msc4511:node:v1"@) + r + s,
        )
        &&& trees_distinct(a.take(k), b.take(k))
        &&& trees_distinct(a.skip(k), b.skip(k))
    }
}

/// A root commits to every leaf, in its place.
pub proof fn root_binds_leaves(a: Seq<Seq<u8>>, b: Seq<Seq<u8>>)
    requires
        a.len() == b.len(),
        a.len() > 0,
        trees_distinct(a, b),
        tree_root(a) == tree_root(b),
    ensures
        a == b,
    decreases a.len(),
{
    if a.len() == 1 {
        assert(a =~= b);
    } else {
        split_point_range(a.len());
        let k = split_point(a.len()) as int;
        node_binds(
            tree_root(a.take(k)),
            tree_root(a.skip(k)),
            tree_root(b.take(k)),
            tree_root(b.skip(k)),
        );
        root_binds_leaves(a.take(k), b.take(k));
        root_binds_leaves(a.skip(k), b.skip(k));
        assert(a =~= a.take(k) + a.skip(k));
        assert(b =~= b.take(k) + b.skip(k));
    }
}

proof fn repeated_neighbours(texts: Seq<Seq<char>>, from: nat)
    ensures
        match repeated(texts, from) {
            Some(text) => exists|i: int|
                from <= i && i + 1 < texts.len() && #[trigger] texts[i] == text && texts[i + 1]
                    == text,
            None => forall|i: int|
                from <= i && i + 1 < texts.len() ==> #[trigger] texts[i] != texts[i + 1],
        },
    decreases texts.len() - from,
{
    if from + 1 < texts.len() && texts[from as int] != texts[from as int + 1] {
        repeated_neighbours(texts, from + 1);
    }
}

/// A name stands twice among names in order exactly where it occurs twice.
proof fn repeated_is_duplicate(names: Seq<Seq<char>>)
    ensures
        match repeated(sorted_texts(names), 0) {
            Some(name) => exists|i: int, j: int|
                0 <= i < j < names.len() && #[trigger] names[i] == name && #[trigger] names[j]
                    == name,
            None => names.no_duplicates(),
        },
{
    let sorted = sorted_texts(names);
    text_order_total();
    names.lemma_sort_by_ensures(text_order());
    repeated_neighbours(sorted, 0);
    names.to_multiset_ensures();
    sorted.to_multiset_ensures();
    match repeated(sorted, 0) {
        Some(name) => {
            let k = choose|k: int|
                0 <= k && k + 1 < sorted.len() && #[trigger] sorted[k] == name && sorted[k + 1]
                    == name;
            let rest = sorted.remove(k);
            assert(rest[k] == name);
            rest.to_multiset_ensures();
            vstd::seq_lib::to_multiset_remove(sorted, k);
            assert(rest.to_multiset().count(name) > 0);
            assert(sorted.to_multiset().count(name) >= 2);
            let (i, j) = two_places(names, name);
            assert(names[i] == name && names[j] == name);
        },
        None => {
            assert forall|i: int, j: int| 0 <= i < names.len() && 0 <= j < names.len() && i
                != j implies names[i] != names[j] by {
                if names[i] == names[j] {
                    let name = names[i];
                    let (lo, hi) = if i < j {
                        (i, j)
                    } else {
                        (j, i)
                    };
                    let rest = names.remove(lo);
                    assert(rest[hi - 1] == name);
                    rest.to_multiset_ensures();
                    vstd::seq_lib::to_multiset_remove(names, lo);
                    assert(rest.to_multiset().count(name) > 0);
                    assert(names.to_multiset().count(name) >= 2);
                    let (p, q) = two_places(sorted, name);
                    let leq = text_order();
                    assert(leq(sorted[p], sorted[p + 1]));
                    assert(p + 1 == q || leq(sorted[p + 1], sorted[q]));
                    if p + 1 < q {
                        crate::bytes::text_le_antisymmetric(sorted[p], sorted[p + 1]);
                    }
                    assert(sorted[p] == sorted[p + 1]);
                }
            }
        },
    }
}

proof fn no_fault_upto(fields: Seq<Field>, n: nat)
    requires
        n <= fields.len(),
    ensures
        first_fault(fields, n) is None <==> forall|i: int|
            0 <= i < n ==> field_fault((#[trigger] fields[i]).name@, fields[i].value) is None,
    decreases n,
{
    if n > 0 {
        no_fault_upto(fields, (n - 1) as nat);
        if first_fault(fields, (n - 1) as nat) is Some {
            let i = choose|i: int|
                0 <= i < n - 1 && field_fault((#[trigger] fields[i]).name@, fields[i].value)
                    is Some;
            assert(field_fault(fields[i].name@, fields[i].value) is Some);
        } else {
            assert(field_fault(fields[n - 1].name@, fields[n - 1].value)
                == first_fault(fields, n));
        }
    }
}

/// Fields have a root exactly where every name has bytes and none of them is zero,
/// every value has a canonical form, and no name occurs twice.
pub proof fn faults_by_fields(fields: Seq<Field>)
    ensures
        fields_fault(fields) is None <==> {
            &&& forall|i: int|
                0 <= i < fields.len() ==> {
                    let name = encode_utf8((#[trigger] fields[i]).name@);
                    name.len() > 0 && !name.contains(0) && json_fault(fields[i].value) is None
                }
            &&& forall|i: int, j: int|
                0 <= i < j < fields.len() ==> (#[trigger] fields[i]).name@ != (
                #[trigger] fields[j]).name@
        },
        fields_fault(fields) matches Some(MerkleFault::DuplicateField(name)) ==> exists|
            i: int,
            j: int,
        |
            0 <= i < j < fields.len() && (#[trigger] fields[i]).name@ == name && (
            #[trigger] fields[j]).name@ == name,
{
    no_fault_upto(fields, fields.len());
    let names = field_names(fields);
    repeated_is_duplicate(names);
    if names.no_duplicates() {
        assert forall|i: int, j: int| 0 <= i < j < fields.len() implies (
        #[trigger] fields[i]).name@ != (#[trigger] fields[j]).name@ by {
            assert(names[i] != names[j]);
        }
    } else {
        let (i, j) = choose|i: int, j: int|
            0 <= i < names.len() && 0 <= j < names.len() && i != j && names[i] == names[j];
        assert(fields[i].name@ == fields[j].name@);
    }
    assert forall|i: int| 0 <= i < fields.len() implies (field_fault(
        (#[trigger] fields[i]).name@,
        fields[i].value,
    ) is None <==> {
        let name = encode_utf8(fields[i].name@);
        name.len() > 0 && !name.contains(0) && json_fault(fields[i].value) is None
    }) by {}
    if let Some(MerkleFault::DuplicateField(name)) = fields_fault(fields) {
        faults_are_no_duplicates(fields, fields.len());
        let (i, j) = choose|i: int, j: int|
            0 <= i < j < names.len() && #[trigger] names[i] == name && #[trigger] names[j] == name;
        assert(fields[i].name@ == name && fields[j].name@ == name);
    }
}

proof fn faults_are_no_duplicates(fields: Seq<Field>, n: nat)
    ensures
        !(first_fault(fields, n) matches Some(MerkleFault::DuplicateField(_))),
    decreases n,
{
    if n > 0 {
        faults_are_no_duplicates(fields, (n - 1) as nat);
    }
}

proof fn place_of(fields: Seq<Field>, i: int, from: nat)
    requires
        from <= i < fields.len(),
        forall|j: int| 0 <= j < i ==> (#[trigger] fields[j]).name@ != fields[i].name@,
    ensures
        field_place(fields, fields[i].name@, from) == i,
    decreases i - from,
{
    if from < i {
        assert(fields[from as int].name@ != fields[i].name@);
        place_of(fields, i, from + 1);
    }
}

/// A leaf is under a root: some path of siblings leads from it to the root.
pub open spec fn under(leaf: Seq<u8>, root: Seq<u8>) -> bool {
    exists|path: Seq<(Side, Seq<u8>)>| #[trigger] fold_path(leaf, path) == root
}

/// The root of fields proves each of them: the leaf of its name and of its value's
/// canonical bytes has a path to the root, the one that is computed for its name.
pub proof fn root_proves_field(fields: Seq<Field>, i: int) -> (at: int)
    requires
        fields_fault(fields) is None,
        0 <= i < fields.len(),
    ensures
        name_rank(fields, fields[i].name@, at),
        sorted_digests(fields)[at] == leaf_digest(
            encode_utf8(fields[i].name@),
            json_bytes(fields[i].value),
        ),
        fold_path(
            leaf_digest(encode_utf8(fields[i].name@), json_bytes(fields[i].value)),
            tree_path(sorted_digests(fields), at),
        ) == tree_root(sorted_digests(fields)),
{
    faults_by_fields(fields);
    place_of(fields, i, 0);
    let name = fields[i].name@;
    let names = sorted_texts(field_names(fields));
    assert(field_names(fields)[i] == name);
    name_sorted(field_names(fields), name);
    let k = choose|k: int| 0 <= k < names.len() && names[k] == name;
    let at = earliest(names, name, k);
    leaf_path_verifies(fields, name, at);
    at
}

proof fn earliest(names: Seq<Seq<char>>, name: Seq<char>, k: int) -> (at: int)
    requires
        0 <= k < names.len(),
        names[k] == name,
    ensures
        0 <= at <= k,
        names[at] == name,
        forall|i: int| 0 <= i < at ==> #[trigger] names[i] != name,
    decreases k,
{
    if exists|j: int| 0 <= j < k && #[trigger] names[j] == name {
        let j = choose|j: int| 0 <= j < k && #[trigger] names[j] == name;
        earliest(names, name, j)
    } else {
        k
    }
}

/// The order in which fields are given does not matter for their root.
pub proof fn root_ignores_order(a: Seq<Field>, b: Seq<Field>)
    requires
        a.len() == b.len(),
        fields_fault(a) is None,
        fields_fault(b) is None,
        forall|i: int|
            0 <= i < a.len() ==> exists|j: int|
                0 <= j < b.len() && (#[trigger] b[j]).name@ == (#[trigger] a[i]).name@
                    && json_bytes(b[j].value) == json_bytes(a[i].value),
        field_names(a).to_multiset() == field_names(b).to_multiset(),
    ensures
        tree_root(sorted_digests(a)) == tree_root(sorted_digests(b)),
{
    let names = sorted_texts(field_names(a));
    text_order_total();
    field_names(a).lemma_sort_by_ensures(text_order());
    sorted_texts_unique(field_names(b), names);
    sorted_names(field_names(a));
    faults_by_fields(a);
    faults_by_fields(b);
    assert forall|k: int| 0 <= k < names.len() implies named_digest(a, #[trigger] names[k])
        == named_digest(b, names[k]) by {
        let i = choose|i: int| 0 <= i < a.len() && field_names(a)[i] == names[k];
        let j = choose|j: int|
            0 <= j < b.len() && (#[trigger] b[j]).name@ == a[i].name@ && json_bytes(b[j].value)
                == json_bytes(a[i].value);
        place_of(a, i, 0);
        place_of(b, j, 0);
    }
    assert(sorted_digests(a) =~= sorted_digests(b));
}

/// A text of plain characters has bytes, none of them zero.
proof fn plain_text(name: Seq<char>)
    requires
        name.len() > 0,
        forall|i: int| 0 <= i < name.len() ==> '\0' < #[trigger] name[i] <= '\u{7f}',
    ensures
        encode_utf8(name).len() == name.len(),
        !encode_utf8(name).contains(0),
{
    is_ascii_chars_encode_utf8(name);
    is_ascii_chars_nat_bound(name);
    let bytes = encode_utf8(name);
    assert forall|i: int| 0 <= i < bytes.len() implies bytes[i] != 0 by {
        assert('\0' < name[i] <= '\u{7f}');
    }
}

/// The names of a header's fields are plain and all different.
proof fn header_names(header: Header, fields: Seq<Field>)
    requires
        header_fields(header, fields),
    ensures
        forall|i: int|
            0 <= i < 8 ==> {
                let name = encode_utf8((#[trigger] fields[i]).name@);
                name.len() > 0 && !name.contains(0)
            },
        forall|i: int, j: int|
            0 <= i < j < 8 ==> (#[trigger] fields[i]).name@ != (#[trigger] fields[j]).name@,
{
    reveal_strlit("depth");
    reveal_strlit("origin_server_ts");
    reveal_strlit("redacts");
    reveal_strlit("room_id");
    reveal_strlit("sender_domain");
    reveal_strlit("sender_localpart");
    reveal_strlit("state_key");
    reveal_strlit("type");
    plain_text("depth"@);
    plain_text("origin_server_ts"@);
    plain_text("redacts"@);
    plain_text("room_id"@);
    plain_text("sender_domain"@);
    plain_text("sender_localpart"@);
    plain_text("state_key"@);
    plain_text("type"@);
    assert("redacts"@[1] == 'e' && "room_id"@[1] == 'o');
    assert("origin_server_ts"@[0] == 'o' && "sender_localpart"@[0] == 's');
}

/// The canonical bytes of an optional text: the text as a string, or null.
pub open spec fn optional_bytes(text: Option<String>) -> Seq<u8> {
    match text {
        Some(text) => string_bytes(text@),
        None => seq![0x6eu8, 0x75u8, 0x6cu8, 0x6cu8],
    }
}

/// The canonical bytes of each of a header's values.
proof fn header_values(header: Header, fields: Seq<Field>)
    requires
        header_fields(header, fields),
    ensures
        json_bytes(fields[0].value) == json_bytes(Json::Integer(header.depth)),
        json_bytes(fields[1].value) == json_bytes(Json::Integer(header.origin_server_ts)),
        json_bytes(fields[2].value) == optional_bytes(header.redacts),
        json_bytes(fields[3].value) == string_bytes(header.room_id@),
        json_bytes(fields[4].value) == string_bytes(header.sender_domain@),
        json_bytes(fields[5].value) == string_bytes(header.sender_localpart@),
        json_bytes(fields[6].value) == optional_bytes(header.state_key),
        json_bytes(fields[7].value) == string_bytes(header.event_type@),
        forall|i: int| 2 <= i < 8 ==> json_fault((#[trigger] fields[i]).value) is None,
{
    let any = header.room_id;
    scalar_bytes(any, 0);
    numbers_within_range(0, 0);
    assert forall|i: int| 2 <= i < 8 implies json_fault((#[trigger] fields[i]).value) is None by {
        if let Json::Text(text) = fields[i].value {
            scalar_bytes(text, 0);
        }
    }
    assert forall|i: int| 2 <= i < 8 && (#[trigger] fields[i]).value is Text implies json_bytes(
        fields[i].value,
    ) == string_bytes(fields[i].value->Text_0@) by {
        scalar_bytes(fields[i].value->Text_0, 0);
    }
    assert(fields[2].value is Text || fields[2].value is Null);
    assert(fields[6].value is Text || fields[6].value is Null);
}

/// A header has a root exactly where its two numbers have at most 53 bits.
pub proof fn header_root_is_owed(header: Header, result: Result<EventHeaderRoot, MerkleError>)
    requires
        header_rooted(header, result),
    ensures
        result is Ok <==> -9_007_199_254_740_991 <= header.depth <= 9_007_199_254_740_991
            && -9_007_199_254_740_991 <= header.origin_server_ts <= 9_007_199_254_740_991,
        result matches Err(error) ==> error@ == MerkleFault::IntegerRange,
{
    let fields = choose|fields: Seq<Field>| #[trigger]
        header_fields(header, fields) && match result {
            Ok(root) => {
                &&& fields_fault(fields) is None
                &&& root.0@ == tree_root(sorted_digests(fields))
            },
            Err(error) => fields_fault(fields) == Some(error@),
        };
    header_names(header, fields);
    header_values(header, fields);
    numbers_within_range(header.depth, 0);
    numbers_within_range(header.origin_server_ts, 0);
    faults_by_fields(fields);
    assert(fields[0].value == Json::Integer(header.depth));
    assert(fields[1].value == Json::Integer(header.origin_server_ts));
    if fields_fault(fields) is Some {
        reveal_with_fuel(first_fault, 3);
        assert(first_fault(fields, 2) is Some);
        first_fault_stays(fields, 2, 8);
    }
}

/// The root of a header proves each of its eight fields: the leaf of the field's name
/// and its own canonical bytes is under the root.
pub proof fn header_root_proves_fields(header: Header, root: EventHeaderRoot)
    requires
        header_rooted(header, Ok(root)),
    ensures
        under(leaf_digest(encode_utf8("room_id"@), string_bytes(header.room_id@)), root.0@),
        under(
            leaf_digest(encode_utf8("sender_localpart"@), string_bytes(header.sender_localpart@)),
            root.0@,
        ),
        under(
            leaf_digest(encode_utf8("sender_domain"@), string_bytes(header.sender_domain@)),
            root.0@,
        ),
        under(leaf_digest(encode_utf8("type"@), string_bytes(header.event_type@)), root.0@),
        under(leaf_digest(encode_utf8("state_key"@), optional_bytes(header.state_key)), root.0@),
        under(leaf_digest(encode_utf8("redacts"@), optional_bytes(header.redacts)), root.0@),
        under(
            leaf_digest(encode_utf8("depth"@), json_bytes(Json::Integer(header.depth))),
            root.0@,
        ),
        under(
            leaf_digest(
                encode_utf8("origin_server_ts"@),
                json_bytes(Json::Integer(header.origin_server_ts)),
            ),
            root.0@,
        ),
{
    let fields = choose|fields: Seq<Field>| #[trigger]
        header_fields(header, fields) && fields_fault(fields) is None && root.0@ == tree_root(
            sorted_digests(fields),
        );
    header_values(header, fields);
    assert forall|i: int| 0 <= i < 8 implies under(
        leaf_digest(encode_utf8((#[trigger] fields[i]).name@), json_bytes(fields[i].value)),
        root.0@,
    ) by {
        let at = root_proves_field(fields, i);
        assert(fold_path(
            leaf_digest(encode_utf8(fields[i].name@), json_bytes(fields[i].value)),
            tree_path(sorted_digests(fields), at),
        ) == root.0@);
    }
    assert(fields[0].name@ == "depth"@ && fields[1].name@ == "origin_server_ts"@);
    assert(fields[2].name@ == "redacts"@ && fields[3].name@ == "room_id"@);
    assert(fields[4].name@ == "sender_domain"@ && fields[5].name@ == "sender_localpart"@);
    assert(fields[6].name@ == "state_key"@ && fields[7].name@ == "type"@);
}

/// The digests that two headers are hashed to do not collide.
pub open spec fn headers_distinct(a: Header, b: Header) -> bool {
    forall|f: Seq<Field>, g: Seq<Field>| #[trigger]
        header_fields(a, f) && #[trigger] header_fields(b, g) ==> {
            &&& trees_distinct(sorted_digests(f), sorted_digests(g))
            &&& forall|i: int|
                0 <= i < 8 ==> distinct_digests(
                    encode_utf8("msc4511:leaf:v1"@) + encode_utf8((#[trigger] f[i]).name@)
                        + seq![0u8] + json_bytes(f[i].value),
                    encode_utf8("msc4511:leaf:v1"@) + encode_utf8(g[i].name@) + seq![0u8]
                        + json_bytes(g[i].value),
                )
        }
}

/// A header root commits to the whole header: headers with the same root are equal
/// in every field, where no digests collide.
pub proof fn header_root_binds(a: Header, b: Header, root: EventHeaderRoot)
    requires
        header_rooted(a, Ok(root)),
        header_rooted(b, Ok(root)),
        headers_distinct(a, b),
    ensures
        a.room_id@ == b.room_id@,
        a.sender_localpart@ == b.sender_localpart@,
        a.sender_domain@ == b.sender_domain@,
        a.event_type@ == b.event_type@,
        optional_text(a.state_key) == optional_text(b.state_key),
        optional_text(a.redacts) == optional_text(b.redacts),
        a.depth == b.depth,
        a.origin_server_ts == b.origin_server_ts,
{
    let f = choose|fields: Seq<Field>| #[trigger]
        header_fields(a, fields) && fields_fault(fields) is None && root.0@ == tree_root(
            sorted_digests(fields),
        );
    let g = choose|fields: Seq<Field>| #[trigger]
        header_fields(b, fields) && fields_fault(fields) is None && root.0@ == tree_root(
            sorted_digests(fields),
        );
    assert(field_names(f) =~= field_names(g));
    sorted_names(field_names(f));
    root_binds_leaves(sorted_digests(f), sorted_digests(g));
    header_names(a, f);
    header_names(b, g);
    assert forall|i: int| 0 <= i < 8 implies json_bytes((#[trigger] f[i]).value) == json_bytes(
        g[i].value,
    ) by {
        let p = root_proves_field(f, i);
        let q = root_proves_field(g, i);
        assert(f[i].name@ == g[i].name@);
        let names = sorted_texts(field_names(f));
        assert(p == q) by {
            if p < q {
                assert(names[p] != f[i].name@);
            }
            if q < p {
                assert(names[q] != f[i].name@);
            }
        }
        leaf_binds(
            encode_utf8(f[i].name@),
            json_bytes(f[i].value),
            encode_utf8(g[i].name@),
            json_bytes(g[i].value),
        );
    }
    header_values(a, f);
    header_values(b, g);
    assert(json_bytes(f[0].value) == json_bytes(g[0].value));
    assert(json_bytes(f[1].value) == json_bytes(g[1].value));
    assert(json_bytes(f[2].value) == json_bytes(g[2].value));
    assert(json_bytes(f[3].value) == json_bytes(g[3].value));
    assert(json_bytes(f[4].value) == json_bytes(g[4].value));
    assert(json_bytes(f[5].value) == json_bytes(g[5].value));
    assert(json_bytes(f[6].value) == json_bytes(g[6].value));
    assert(json_bytes(f[7].value) == json_bytes(g[7].value));
    scalar_bytes(a.room_id, a.depth);
    scalar_bytes(a.room_id, b.depth);
    scalar_bytes(a.room_id, a.origin_server_ts);
    scalar_bytes(a.room_id, b.origin_server_ts);
    integer_bytes_stand_for(a.depth as int, b.depth as int);
    integer_bytes_stand_for(a.origin_server_ts as int, b.origin_server_ts as int);
    string_bytes_injective(a.room_id@, b.room_id@);
    string_bytes_injective(a.sender_domain@, b.sender_domain@);
    string_bytes_injective(a.sender_localpart@, b.sender_localpart@);
    string_bytes_injective(a.event_type@, b.event_type@);
    optional_bytes_injective(a.state_key, b.state_key);
    optional_bytes_injective(a.redacts, b.redacts);
}

proof fn optional_bytes_injective(a: Option<String>, b: Option<String>)
    requires
        optional_bytes(a) == optional_bytes(b),
    ensures
        optional_text(a) == optional_text(b),
{
    let null = seq![0x6eu8, 0x75u8, 0x6cu8, 0x6cu8];
    assert(null[0] == 0x6eu8);
    match (a, b) {
        (Some(x), Some(y)) => string_bytes_injective(x@, y@),
        (Some(x), None) => string_bytes_injective(x@, x@),
        (None, Some(y)) => string_bytes_injective(y@, y@),
        (None, None) => {},
    }
}

/// The contents of a path are its sides and hashes, one for one.
pub proof fn path_by_fields(path: Seq<ProofStep>, i: int)
    ensures
        path_contents(path).len() == path.len(),
        0 <= i < path.len() ==> path_contents(path)[i].0 == path[i].side && path_contents(
            path,
        )[i].1 == path[i].hash@,
{
}

} // verus!
