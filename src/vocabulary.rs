use vstd::prelude::*;

use crate::text::{chars_of, contains, has_substring, lines, lines_of, occurs_at, split_chars, split_on, string_of};

verus! {

/// The views of a sequence of strings.
pub open spec fn views(v: Seq<String>) -> Seq<Seq<char>> {
    v.map_values(|s: String| s@)
}

/// No two strings of `v` are equal.
pub open spec fn distinct(v: Seq<String>) -> bool {
    forall|i: int, j: int| 0 <= i < v.len() && 0 <= j < v.len() && i != j ==> v[i]@ != v[j]@
}

/// The marker that announces the type field on a line: `"type": "`.
pub open spec fn type_marker() -> Seq<char> {
    seq!['"', 't', 'y', 'p', 'e', '"', ':', ' ', '"']
}

fn type_marker_chars() -> (r: Vec<char>)
    ensures
        r@ == type_marker(),
{
    let r = vec!['"', 't', 'y', 'p', 'e', '"', ':', ' ', '"'];
    assert(r@ =~= type_marker());
    r
}

/// The number of occurrences of `sep` in `s`.
pub open spec fn count_of(s: Seq<char>, sep: char) -> nat
    decreases s.len(),
{
    if s.len() == 0 {
        0
    } else {
        count_of(s.drop_last(), sep) + if s.last() == sep { 1nat } else { 0nat }
    }
}

proof fn lemma_split_len(s: Seq<char>, sep: char)
    ensures
        split_on(s, sep).len() == 1 + count_of(s, sep),
    decreases s.len(),
{
    if s.len() > 0 {
        lemma_split_len(s.drop_last(), sep);
    }
}

proof fn lemma_count_pos(s: Seq<char>, sep: char, j: int)
    requires
        0 <= j < s.len(),
        s[j] == sep,
    ensures
        count_of(s, sep) >= 1,
    decreases s.len(),
{
    if j < s.len() - 1 {
        lemma_count_pos(s.drop_last(), sep, j);
    }
}

/// A line that holds the marker has at least two quote-separated pieces.
proof fn lemma_marker_line_pieces(l: Seq<char>)
    requires
        has_substring(l, type_marker()),
    ensures
        split_on(l, '"').len() >= 2,
{
    let i = choose|i: int| occurs_at(l, type_marker(), i);
    assert(l.subrange(i, i + 9)[0] == '"');
    lemma_count_pos(l, '"', i);
    lemma_split_len(l, '"');
}

/// The token that a line holds: the second-to-last piece of the line split on
/// `"`, where the line carries the marker.
pub open spec fn token_of(l: Seq<char>) -> Option<Seq<char>> {
    if has_substring(l, type_marker()) {
        let f = split_on(l, '"');
        Some(f[f.len() - 2])
    } else {
        None
    }
}

/// The token on one line of metadata, if the line carries the marker.
pub fn extract_type_token(line: &Vec<char>) -> (r: Option<String>)
    ensures
        r matches Some(t) ==> token_of(line@) == Some(t@),
        r is None ==> token_of(line@) is None,
{
    let marker = type_marker_chars();
    if !contains(line, &marker) {
        return None;
    }
    proof {
        lemma_marker_line_pieces(line@);
    }
    let fields = split_chars(line, '"');
    let n = fields.len();
    assert(fields@.map_values(|f: Vec<char>| f@)[n - 2] == fields@[n - 2]@);
    Some(string_of(&fields[n - 2]))
}

/// The lines of a file that carry the marker.
pub open spec fn marker_lines(c: Seq<char>) -> Seq<Seq<char>> {
    lines_of(c).filter(|l: Seq<char>| has_substring(l, type_marker()))
}

/// The number of marker lines over all files.
pub open spec fn total_matches(files: Seq<Seq<char>>) -> nat
    decreases files.len(),
{
    if files.len() == 0 {
        0
    } else {
        total_matches(files.drop_last()) + marker_lines(files.last()).len()
    }
}

/// The tokens found over all files.
pub open spec fn tokens_seen(files: Seq<Seq<char>>) -> Set<Seq<char>>
    decreases files.len(),
{
    if files.len() == 0 {
        Set::empty()
    } else {
        tokens_seen(files.drop_last()).union(
            marker_lines(files.last()).map_values(|l: Seq<char>| token_of(l)->0).to_set(),
        )
    }
}

/// What a scan of the stored metadata found.
pub struct ScanReport {
    /// Lines that carried the marker, over all files.
    pub matches: usize,
    /// The distinct tokens found.
    pub types: Vec<String>,
    /// Files scanned.
    pub files: usize,
}

/// Adds `t` to `v` unless a string equal to it is there already.
pub fn insert_unique(v: &mut Vec<String>, t: String)
    requires
        distinct(old(v)@),
    ensures
        distinct(final(v)@),
        views(final(v)@).to_set() == views(old(v)@).to_set().insert(t@),
{
    let ghost t_view = t@;
    let mut i: usize = 0;
    while i < v.len()
        invariant
            v@ == old(v)@,
            distinct(v@),
            forall|k: int| 0 <= k < i ==> v@[k]@ != t@,
        decreases v.len() - i,
    {
        if v[i] == t {
            assert(views(v@)[i as int] == t@);
            assert(views(v@).to_set() =~= views(v@).to_set().insert(t@));
            return;
        }
        i = i + 1;
    }
    let ghost before = v@;
    v.push(t);
    assert(views(v@) =~= views(before).push(t_view));
    proof {
        views(before).lemma_push_to_set_commute(t_view);
    }
}

/// One more line of a file: the marker lines and tokens of a prefix grow by it.
proof fn lemma_marker_prefix_step(ls: Seq<Seq<char>>, k: int)
    requires
        0 <= k < ls.len(),
    ensures
        ls.take(k + 1).filter(|l: Seq<char>| has_substring(l, type_marker())) == if has_substring(
            ls[k],
            type_marker(),
        ) {
            ls.take(k).filter(|l: Seq<char>| has_substring(l, type_marker())).push(ls[k])
        } else {
            ls.take(k).filter(|l: Seq<char>| has_substring(l, type_marker()))
        },
{
    reveal(Seq::filter);
    assert(ls.take(k + 1).drop_last() =~= ls.take(k));
}

/// Counts the marker lines and collects the distinct tokens of every file.
pub fn scan_types(contents: &Vec<String>) -> (r: ScanReport)
    requires
        total_matches(views(contents@)) <= usize::MAX,
    ensures
        r.matches == total_matches(views(contents@)),
        views(r.types@).to_set() == tokens_seen(views(contents@)),
        distinct(r.types@),
        r.files == contents.len(),
{
    let ghost files = views(contents@);
    let mut matches: usize = 0;
    let mut types: Vec<String> = Vec::new();
    let mut f: usize = 0;
    proof {
        lemma_total_matches_prefix(files, files.len() as int);
    }
    assert(views(types@).to_set() =~= Set::<Seq<char>>::empty());
    while f < contents.len()
        invariant
            f <= contents.len(),
            files == views(contents@),
            total_matches(files) <= usize::MAX,
            matches == total_matches(files.take(f as int)),
            views(types@).to_set() == tokens_seen(files.take(f as int)),
            distinct(types@),
        decreases contents.len() - f,
    {
        let chars = chars_of(contents[f].as_str());
        let ls = lines(&chars);
        let ghost lv = ls@.map_values(|x: Vec<char>| x@);
        let ghost base_types = views(types@).to_set();
        assert(lv == lines_of(files[f as int]));
        proof {
            lemma_total_matches_prefix(files, f + 1);
            assert(files.take(f + 1).drop_last() =~= files.take(f as int));
        }
        let mut k: usize = 0;
        assert(lv.take(0).filter(|l: Seq<char>| has_substring(l, type_marker())) =~= Seq::empty()) by {
            reveal(Seq::filter);
        }
        assert(views(types@).to_set() =~= base_types.union(
            Seq::<Seq<char>>::empty().map_values(|l: Seq<char>| token_of(l)->0).to_set(),
        ));
        while k < ls.len()
            invariant
                f < contents.len(),
                k <= ls.len(),
                lv == ls@.map_values(|x: Vec<char>| x@),
                files == views(contents@),
                lv == lines_of(files[f as int]),
                total_matches(files) <= usize::MAX,
                total_matches(files.take(f + 1)) <= total_matches(files),
                total_matches(files.take(f + 1)) == total_matches(files.take(f as int))
                    + marker_lines(files[f as int]).len(),
                matches == total_matches(files.take(f as int)) + lv.take(k as int).filter(
                    |l: Seq<char>| has_substring(l, type_marker()),
                ).len(),
                base_types == tokens_seen(files.take(f as int)),
                views(types@).to_set() == base_types.union(
                    lv.take(k as int).filter(|l: Seq<char>| has_substring(l, type_marker())).map_values(
                        |l: Seq<char>| token_of(l)->0,
                    ).to_set(),
                ),
                distinct(types@),
            decreases ls.len() - k,
        {
            let ghost prev = lv.take(k as int).filter(|l: Seq<char>| has_substring(l, type_marker()));
            proof {
                lemma_marker_prefix_step(lv, k as int);
                lemma_filter_prefix_len(lv, k + 1);
            }
            assert(lv[k as int] == ls@[k as int]@);
            match extract_type_token(&ls[k]) {
                Some(t) => {
                    let ghost tv = t@;
                    assert(prev.push(lv[k as int]).map_values(|l: Seq<char>| token_of(l)->0) =~= prev.map_values(
                        |l: Seq<char>| token_of(l)->0,
                    ).push(tv));
                    proof {
                        prev.map_values(|l: Seq<char>| token_of(l)->0).lemma_push_to_set_commute(tv);
                    }
                    matches = matches + 1;
                    insert_unique(&mut types, t);
                    assert(views(types@).to_set() =~= base_types.union(
                        prev.push(lv[k as int]).map_values(|l: Seq<char>| token_of(l)->0).to_set(),
                    ));
                },
                None => {},
            }
            k = k + 1;
        }
        assert(lv.take(ls.len() as int) == lv);
        f = f + 1;
    }
    assert(files.take(contents.len() as int) == files);
    ScanReport { matches, types, files: contents.len() }
}

proof fn lemma_filter_prefix_len(ls: Seq<Seq<char>>, k: int)
    requires
        0 <= k <= ls.len(),
    ensures
        ls.take(k).filter(|l: Seq<char>| has_substring(l, type_marker())).len() <= ls.filter(
            |l: Seq<char>| has_substring(l, type_marker()),
        ).len(),
    decreases ls.len() - k,
{
    if k < ls.len() {
        lemma_filter_prefix_len(ls, k + 1);
        lemma_marker_prefix_step(ls, k);
    } else {
        assert(ls.take(k) == ls);
    }
}

proof fn lemma_total_matches_prefix(files: Seq<Seq<char>>, f: int)
    requires
        0 <= f <= files.len(),
    ensures
        total_matches(files.take(f)) <= total_matches(files),
    decreases files.len() - f,
{
    if f < files.len() {
        lemma_total_matches_prefix(files, f + 1);
        assert(files.take(f + 1).drop_last() =~= files.take(f));
    } else {
        assert(files.take(f) == files);
    }
}

/// A token that names a container of another type: it holds `[]` or `list`.
pub open spec fn is_modified(t: Seq<char>) -> bool {
    has_substring(t, seq!['[', ']']) || has_substring(t, seq!['l', 'i', 's', 't'])
}

/// The tokens of `s` that name no container.
pub open spec fn normalize(s: Set<Seq<char>>) -> Set<Seq<char>> {
    s.filter(|t: Seq<char>| !is_modified(t))
}

/// Normalizing keeps a subset of the tokens, and none of them names a container.
pub proof fn lemma_normalize_subset(s: Set<Seq<char>>)
    ensures
        normalize(s).subset_of(s),
        forall|t: Seq<char>| #[trigger] normalize(s).contains(t) ==> !has_substring(t, seq!['[', ']'])
            && !has_substring(t, seq!['l', 'i', 's', 't']),
{
}

/// Normalizing twice is normalizing once.
pub proof fn lemma_normalize_idempotent(s: Set<Seq<char>>)
    ensures
        normalize(normalize(s)) == normalize(s),
{
    assert(normalize(normalize(s)) =~= normalize(s));
}

/// Whether a token names a container of another type.
pub fn is_modified_type(t: &String) -> (r: bool)
    ensures
        r == is_modified(t@),
{
    let chars = chars_of(t.as_str());
    let brackets = vec!['[', ']'];
    let list = vec!['l', 'i', 's', 't'];
    assert(brackets@ =~= seq!['[', ']']);
    assert(list@ =~= seq!['l', 'i', 's', 't']);
    contains(&chars, &brackets) || contains(&chars, &list)
}

/// The tokens that name no container, each found token that holds `[]` or
/// `list` dropped whole.
pub fn get_true_types(found_types: Vec<String>) -> (r: Vec<String>)
    requires
        distinct(found_types@),
    ensures
        views(r@).to_set() == normalize(views(found_types@).to_set()),
        distinct(r@),
{
    let ghost src = views(found_types@);
    let mut true_types: Vec<String> = Vec::new();
    let mut i: usize = 0;
    while i < found_types.len()
        invariant
            i <= found_types.len(),
            src == views(found_types@),
            distinct(found_types@),
            views(true_types@).to_set() == normalize(src.take(i as int).to_set()),
            forall|k: int|
                0 <= k < true_types.len() ==> exists|j: int|
                    0 <= j < i && #[trigger] true_types@[k]@ == found_types@[j]@,
            distinct(true_types@),
        decreases found_types.len() - i,
    {
        let ghost before = views(true_types@);
        assert(src.take(i + 1) == src.take(i as int).push(src[i as int]));
        proof {
            src.take(i as int).lemma_push_to_set_commute(src[i as int]);
        }
        if !is_modified_type(&found_types[i]) {
            let t = found_types[i].clone();
            assert forall|k: int| 0 <= k < true_types.len() implies true_types@[k]@ != t@ by {
                let j = choose|j: int| 0 <= j < i && #[trigger] true_types@[k]@ == found_types@[j]@;
            }
            true_types.push(t);
            assert(views(true_types@) =~= before.push(src[i as int]));
            proof {
                before.lemma_push_to_set_commute(src[i as int]);
            }
            assert(views(true_types@).to_set() =~= normalize(src.take(i + 1).to_set()));
        } else {
            assert(normalize(src.take(i as int).to_set()) =~= normalize(src.take(i + 1).to_set()));
        }
        i = i + 1;
    }
    assert(src.take(found_types.len() as int) == src);
    true_types
}

} // verus!
