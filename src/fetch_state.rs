use vstd::prelude::*;

use crate::catalog::{all_digits, digits_value, parse_u16, parse_u16_spec, unsigned_digits};
use crate::text::{chars_of, split_chars, split_on, string_of};

verus! {

broadcast use vstd::std_specs::hash::group_hash_axioms;

/// The id that a stored file's path names: the part of its last `/`-separated
/// segment before the first `.`, read as a number.
pub open spec fn file_id_spec(path: Seq<char>) -> Option<u16> {
    let name = split_on(path, '/').last();
    parse_u16_spec(split_on(name, '.')[0])
}

/// The ids that a listing of stored files names.
pub open spec fn ids_of(paths: Seq<Seq<char>>) -> Set<u16> {
    Set::new(|id: u16| exists|i: int| 0 <= i < paths.len() && file_id_spec(paths[i]) == Some(id))
}

/// The id that a stored file's path names, if it names one.
pub fn file_id_of(path: &str) -> (r: Option<u16>)
    ensures
        r == file_id_spec(path@),
{
    let chars = chars_of(path);
    let segments = split_chars(&chars, '/');
    proof {
        crate::text::lemma_split_on_nonempty(path@, '/');
    }
    let last = &segments[segments.len() - 1];
    assert(last@ == split_on(path@, '/').last());
    let parts = split_chars(last, '.');
    proof {
        crate::text::lemma_split_on_nonempty(last@, '.');
    }
    assert(parts@[0]@ == split_on(last@, '.')[0]);
    parse_u16(&parts[0])
}

/// The ids of the stored files, or the index of the first path that names no
/// id: the layout of the store is then broken.
pub fn get_fetched_problems(paths: &Vec<String>) -> (r: Result<
    std::collections::HashSet<u16>,
    usize,
>)
    ensures
        r matches Ok(s) ==> s@ == ids_of(paths@.map_values(|p: String| p@)),
        r matches Err(k) ==> k < paths.len() && file_id_spec(paths@[k as int]@) is None && forall|
            i: int,
        | 0 <= i < k ==> file_id_spec(#[trigger] paths@[i]@) is Some,
{
    let ghost pv = paths@.map_values(|p: String| p@);
    let mut res: std::collections::HashSet<u16> = std::collections::HashSet::new();
    let mut i: usize = 0;
    while i < paths.len()
        invariant
            i <= paths.len(),
            pv == paths@.map_values(|p: String| p@),
            res@ == ids_of(pv.take(i as int)),
            forall|j: int| 0 <= j < i ==> file_id_spec(#[trigger] paths@[j]@) is Some,
        decreases paths.len() - i,
    {
        let id = match file_id_of(paths[i].as_str()) {
            Some(id) => id,
            None => {
                return Err(i);
            },
        };
        let ghost before = res@;
        res.insert(id);
        assert(pv[i as int] == paths@[i as int]@);
        assert(res@ =~= ids_of(pv.take(i + 1))) by {
            assert forall|x: u16| ids_of(pv.take(i + 1)).contains(x) implies #[trigger] res@.contains(
                x,
            ) by {
                let j = choose|j: int|
                    0 <= j < i + 1 && file_id_spec(#[trigger] pv.take(i + 1)[j]) == Some(x);
                if j < i {
                    assert(pv.take(i as int)[j] == pv.take(i + 1)[j]);
                }
            }
            assert forall|x: u16| #[trigger] res@.contains(x) implies ids_of(pv.take(i + 1)).contains(
                x,
            ) by {
                if x != id {
                    let j = choose|j: int|
                        0 <= j < i && file_id_spec(#[trigger] pv.take(i as int)[j]) == Some(x);
                    assert(pv.take(i + 1)[j] == pv.take(i as int)[j]);
                } else {
                    assert(pv.take(i + 1)[i as int] == pv[i as int]);
                }
            }
        }
        i = i + 1;
    }
    assert(pv.take(paths.len() as int) == pv);
    Ok(res)
}

/// The character of a decimal digit.
pub open spec fn digit_char(d: nat) -> char {
    ((d + 48) as u8) as char
}

/// The decimal digits of `n`, without leading zeros.
pub open spec fn decimal(n: nat) -> Seq<char>
    decreases n,
{
    if n < 10 {
        seq![digit_char(n)]
    } else {
        decimal(n / 10).push(digit_char(n % 10))
    }
}

/// The name of the file that stores an item's metadata: `<id>.json`.
pub open spec fn file_name_spec(id: u16) -> Seq<char> {
    decimal(id as nat) + seq!['.', 'j', 's', 'o', 'n']
}

fn decimal_chars(n: u16) -> (r: Vec<char>)
    ensures
        r@ == decimal(n as nat),
    decreases n,
{
    let d = n % 10;
    let c = ((d as u8) + 48) as char;
    if n < 10 {
        vec![c]
    } else {
        let mut v = decimal_chars(n / 10);
        v.push(c);
        v
    }
}

/// The name of the file that stores the metadata of item `id`.
pub fn metadata_file_name(id: u16) -> (r: String)
    ensures
        r@ == file_name_spec(id),
{
    let mut v = decimal_chars(id);
    v.push('.');
    v.push('j');
    v.push('s');
    v.push('o');
    v.push('n');
    assert(v@ =~= file_name_spec(id));
    string_of(&v)
}

proof fn lemma_decimal(n: nat)
    ensures
        decimal(n).len() > 0,
        decimal(n)[0] != '+',
        all_digits(decimal(n)),
        digits_value(decimal(n)) == n,
        forall|i: int| 0 <= i < decimal(n).len() ==> #[trigger] decimal(n)[i] != '/' && decimal(n)[i] != '.',
    decreases n,
{
    let d = n % 10;
    assert((d + 48) as u8 == d + 48);
    assert(digit_char(d) as nat == d + 48);
    assert('0' as nat == 48);
    assert(decimal(n).last() == digit_char(d));
    assert(digits_value(decimal(n)) == digits_value(decimal(n).drop_last()) * 10 + (
    decimal(n).last() as nat - '0' as nat) as nat);
    if n >= 10 {
        lemma_decimal(n / 10);
        assert(decimal(n).drop_last() == decimal(n / 10));
        assert(n == (n / 10) * 10 + d);
    } else {
        assert(decimal(n).drop_last() =~= Seq::<char>::empty());
    }
}

/// A piece free of the separator splits into itself.
proof fn lemma_split_plain(x: Seq<char>, sep: char)
    requires
        forall|i: int| 0 <= i < x.len() ==> x[i] != sep,
    ensures
        split_on(x, sep) == seq![x],
    decreases x.len(),
{
    if x.len() > 0 {
        lemma_split_plain(x.drop_last(), sep);
        assert(x.drop_last().push(x.last()) == x);
        assert(split_on(x, sep) =~= seq![x]);
    } else {
        assert(x =~= Seq::<char>::empty());
    }
}

/// Text after the last separator is the last piece.
proof fn lemma_split_last(a: Seq<char>, b: Seq<char>, sep: char)
    requires
        forall|i: int| 0 <= i < b.len() ==> b[i] != sep,
    ensures
        split_on(a.push(sep) + b, sep).last() == b,
        split_on(a.push(sep) + b, sep).len() >= 2,
    decreases b.len(),
{
    crate::text::lemma_split_on_nonempty(a, sep);
    if b.len() == 0 {
        assert(a.push(sep) + b == a.push(sep));
        assert(a.push(sep).drop_last() == a);
    } else {
        lemma_split_last(a, b.drop_last(), sep);
        assert((a.push(sep) + b).drop_last() == a.push(sep) + b.drop_last());
        assert(b.drop_last().push(b.last()) == b);
    }
}

/// Text before the first separator is the first piece.
proof fn lemma_split_first(x: Seq<char>, y: Seq<char>, sep: char)
    requires
        forall|i: int| 0 <= i < x.len() ==> x[i] != sep,
    ensures
        split_on(x.push(sep) + y, sep)[0] == x,
        split_on(x.push(sep) + y, sep).len() >= 2,
    decreases y.len(),
{
    if y.len() == 0 {
        lemma_split_plain(x, sep);
        assert(x.push(sep) + y == x.push(sep));
        assert(x.push(sep).drop_last() == x);
    } else {
        lemma_split_first(x, y.drop_last(), sep);
        assert((x.push(sep) + y).drop_last() == x.push(sep) + y.drop_last());
    }
}

/// The stored file of item `id` names `id` again, in any directory.
pub proof fn lemma_file_name_round_trip(dir: Seq<char>, id: u16)
    ensures
        file_id_spec(file_name_spec(id)) == Some(id),
        file_id_spec(dir.push('/') + file_name_spec(id)) == Some(id),
{
    let name = file_name_spec(id);
    let digits = decimal(id as nat);
    lemma_decimal(id as nat);
    assert(name == digits.push('.') + seq!['j', 's', 'o', 'n']);
    assert forall|i: int| 0 <= i < name.len() implies name[i] != '/' by {
        if i < digits.len() {
            assert(name[i] == digits[i]);
        }
    }
    lemma_split_plain(name, '/');
    lemma_split_last(dir, name, '/');
    lemma_split_first(digits, seq!['j', 's', 'o', 'n'], '.');
    assert(unsigned_digits(digits) == digits);
}

/// Adding a stored file that names an id adds exactly that id to what is
/// recovered.
pub proof fn lemma_ids_of_push(paths: Seq<Seq<char>>, p: Seq<char>)
    requires
        file_id_spec(p) is Some,
    ensures
        ids_of(paths.push(p)) == ids_of(paths).insert(file_id_spec(p)->0),
{
    let q = paths.push(p);
    assert forall|x: u16| #[trigger] ids_of(q).contains(x) implies ids_of(paths).insert(
        file_id_spec(p)->0,
    ).contains(x) by {
        let j = choose|j: int| 0 <= j < q.len() && file_id_spec(#[trigger] q[j]) == Some(x);
        if j < paths.len() {
            assert(q[j] == paths[j]);
        }
    }
    assert forall|x: u16| #[trigger] ids_of(paths).insert(file_id_spec(p)->0).contains(x) implies ids_of(
        q,
    ).contains(x) by {
        if x != file_id_spec(p)->0 {
            let j = choose|j: int| 0 <= j < paths.len() && file_id_spec(#[trigger] paths[j]) == Some(x);
            assert(q[j] == paths[j]);
        } else {
            assert(q[paths.len() as int] == p);
        }
    }
    assert(ids_of(q) =~= ids_of(paths).insert(file_id_spec(p)->0));
}

} // verus!
