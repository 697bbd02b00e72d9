//! What the lookup commands come to before they are shown: the phones or
//! words found, sorted by their text, or the message shown in their place.
use vstd::prelude::*;
use crate::db::{WorkingDatabase, copy_ids, found_ids, found_phones, guarded};
use crate::doc::{StyledText, red, styled_lines, styled_text, join};
use crate::index::entries_view;
use crate::lang::{Word, WordView, strings_view};
use crate::matching::{regex_compiles, regex_error_message};
use crate::parser::{MatchType, POSTypeFlags, PopularityBounds};
use crate::text::{chars_of, lines_of, push_str};

verus! {

/// Whether `a` comes before `b`: compared character by character, a prefix
/// first.
pub open spec fn text_lt(a: Seq<char>, b: Seq<char>) -> bool
    decreases a.len(),
{
    if a.len() == 0 {
        b.len() > 0
    } else if b.len() == 0 {
        false
    } else if a[0] != b[0] {
        (a[0] as u32) < (b[0] as u32)
    } else {
        text_lt(a.drop_first(), b.drop_first())
    }
}

/// Whether `a` comes before `b` (see `text_lt`).
pub fn text_less(a: &[char], b: &[char]) -> (r: bool)
    ensures
        r == text_lt(a@, b@),
{
    let mut i: usize = 0;
    assert(a@.skip(0) =~= a@);
    assert(b@.skip(0) =~= b@);
    loop
        invariant
            i <= a@.len(),
            i <= b@.len(),
            text_lt(a@, b@) == text_lt(a@.skip(i as int), b@.skip(i as int)),
        decreases a@.len() - i,
    {
        if i == a.len() {
            return i < b.len();
        }
        if i == b.len() {
            return false;
        }
        if a[i] != b[i] {
            return (a[i] as u32) < (b[i] as u32);
        }
        proof {
            assert(a@.skip(i as int).drop_first() =~= a@.skip(i + 1));
            assert(b@.skip(i as int).drop_first() =~= b@.skip(i + 1));
        }
        i = i + 1;
    }
}

/// The number of places in `order` whose key does not come after `k`.
pub open spec fn place_for(keys: Seq<Seq<char>>, order: Seq<int>, k: Seq<char>) -> nat
    decreases order.len(),
{
    if order.len() == 0 {
        0
    } else {
        place_for(keys, order.drop_last(), k) + if text_lt(k, keys[order.last()]) {
            0nat
        } else {
            1nat
        }
    }
}

/// The places of the first `n` keys in sorted order: each key in turn is
/// put after those that do not come after it, so equal keys keep their
/// order.
pub open spec fn sorted_order(keys: Seq<Seq<char>>, n: int) -> Seq<int>
    decreases n,
{
    if n <= 0 {
        Seq::empty()
    } else {
        let o = sorted_order(keys, n - 1);
        o.insert(place_for(keys, o, keys[n - 1]) as int, n - 1)
    }
}

/// The places as integers.
pub open spec fn places(v: Seq<usize>) -> Seq<int> {
    v.map_values(|x: usize| x as int)
}

proof fn lemma_place_for_len(keys: Seq<Seq<char>>, order: Seq<int>, k: Seq<char>)
    ensures
        place_for(keys, order, k) <= order.len(),
    decreases order.len(),
{
    if order.len() > 0 {
        lemma_place_for_len(keys, order.drop_last(), k);
    }
}

proof fn lemma_sorted_order_len(keys: Seq<Seq<char>>, n: int)
    requires
        n >= 0,
    ensures
        sorted_order(keys, n).len() == n,
        forall|i: int| 0 <= i < n ==> 0 <= #[trigger] sorted_order(keys, n)[i] < n,
    decreases n,
{
    if n > 0 {
        lemma_sorted_order_len(keys, n - 1);
        let o = sorted_order(keys, n - 1);
        lemma_place_for_len(keys, o, keys[n - 1]);
        let p = place_for(keys, o, keys[n - 1]) as int;
        assert forall|i: int| 0 <= i < n implies 0 <= #[trigger] sorted_order(keys, n)[i] < n by {
            if i < p {
                assert(sorted_order(keys, n)[i] == o[i]);
            } else if i > p {
                assert(sorted_order(keys, n)[i] == o[i - 1]);
            }
        }
    }
}

/// The places of the keys in sorted order (see `sorted_order`).
pub fn sort_order(keys: &Vec<String>) -> (v: Vec<usize>)
    ensures
        places(v@) == sorted_order(strings_view(keys@), keys@.len() as int),
{
    let ghost kv = strings_view(keys@);
    let mut order: Vec<usize> = Vec::new();
    let mut j: usize = 0;
    while j < keys.len()
        invariant
            kv == strings_view(keys@),
            j <= keys@.len(),
            places(order@) == sorted_order(kv, j as int),
        decreases keys@.len() - j,
    {
        proof {
            lemma_sorted_order_len(kv, j as int);
        }
        let kc = chars_of(keys[j].as_str());
        assert(kc@ == kv[j as int]);
        let mut p: usize = 0;
        let mut i: usize = 0;
        while i < order.len()
            invariant
                kv == strings_view(keys@),
                j < keys@.len(),
                kc@ == kv[j as int],
                places(order@) == sorted_order(kv, j as int),
                order@.len() == j,
                forall|m: int| 0 <= m < j ==> 0 <= #[trigger] sorted_order(kv, j as int)[m] < j,
                i <= order@.len(),
                p <= i,
                p == place_for(kv, places(order@).take(i as int), kc@),
            decreases order@.len() - i,
        {
            let o = order[i];
            assert(places(order@)[i as int] == o as int);
            assert(o < j);
            let oc = chars_of(keys[o].as_str());
            assert(oc@ == kv[o as int]);
            proof {
                assert(places(order@).take(i + 1).drop_last() =~= places(order@).take(i as int));
            }
            if !text_less(&kc, &oc) {
                p = p + 1;
            }
            i = i + 1;
        }
        assert(places(order@).take(order@.len() as int) =~= places(order@));
        let ghost before = places(order@);
        order.insert(p, j);
        proof {
            assert(places(order@) =~= before.insert(p as int, j as int));
        }
        j = j + 1;
    }
    order
}

proof fn lemma_text_lt_irreflexive(a: Seq<char>)
    ensures
        !text_lt(a, a),
    decreases a.len(),
{
    if a.len() > 0 {
        lemma_text_lt_irreflexive(a.drop_first());
    }
}

proof fn lemma_text_lt_transitive(a: Seq<char>, b: Seq<char>, c: Seq<char>)
    requires
        text_lt(a, b),
        text_lt(b, c),
    ensures
        text_lt(a, c),
    decreases a.len(),
{
    if a.len() > 0 && b.len() > 0 && c.len() > 0 && a[0] == b[0] && b[0] == c[0] {
        lemma_text_lt_transitive(a.drop_first(), b.drop_first(), c.drop_first());
    }
}

proof fn lemma_text_lt_total(a: Seq<char>, b: Seq<char>)
    requires
        a != b,
    ensures
        text_lt(a, b) || text_lt(b, a),
    decreases a.len(),
{
    if a.len() == 0 && b.len() == 0 {
        assert(a =~= b);
    } else if a.len() > 0 && b.len() > 0 {
        if a[0] == b[0] {
            let a1 = a.drop_first();
            let b1 = b.drop_first();
            if a1 =~= b1 {
                assert(a =~= b) by {
                    assert forall|i: int| 0 <= i < a.len() implies a[i] == b[i] by {
                        if i > 0 {
                            assert(a[i] == a1[i - 1]);
                            assert(b[i] == b1[i - 1]);
                        }
                    }
                }
            } else {
                lemma_text_lt_total(a1, b1);
            }
        } else {
            let x = a[0];
            let y = b[0];
            vstd::utf8::char_u32_cast(x, x as u32);
            vstd::utf8::char_u32_cast(y, y as u32);
        }
    }
}

/// Whether the keys of the places in `order` never go down.
pub open spec fn in_key_order(keys: Seq<Seq<char>>, order: Seq<int>) -> bool {
    forall|i: int, j: int|
        0 <= i < j < order.len() ==> !text_lt(#[trigger] keys[order[j]], #[trigger] keys[order[i]])
}

/// The places of a sorted order before `place_for` hold keys that do not
/// come after `k`, and those from it on keys that do.
proof fn lemma_place_split(keys: Seq<Seq<char>>, order: Seq<int>, k: Seq<char>)
    requires
        in_key_order(keys, order),
    ensures
        forall|i: int| 0 <= i < place_for(keys, order, k) ==> !text_lt(k, #[trigger] keys[order[i]]),
        forall|i: int| place_for(keys, order, k) <= i < order.len() ==> text_lt(k, #[trigger] keys[order[i]]),
        place_for(keys, order, k) <= order.len(),
    decreases order.len(),
{
    if order.len() > 0 {
        let rest = order.drop_last();
        assert(in_key_order(keys, rest)) by {
            assert forall|i: int, j: int| 0 <= i < j < rest.len() implies !text_lt(
                #[trigger] keys[rest[j]],
                #[trigger] keys[rest[i]],
            ) by {
                assert(keys[rest[j]] == keys[order[j]]);
                assert(keys[rest[i]] == keys[order[i]]);
            }
        }
        lemma_place_split(keys, rest, k);
        let x = keys[order.last()];
        let p = place_for(keys, rest, k);
        if !text_lt(k, x) {
            assert forall|i: int| 0 <= i < rest.len() implies !text_lt(k, #[trigger] keys[order[i]]) by {
                assert(keys[order[i]] == keys[rest[i]]);
                assert(!text_lt(keys[order[order.len() - 1]], keys[order[i]]));
                if text_lt(k, keys[order[i]]) {
                    if keys[order[i]] == x {
                    } else {
                        lemma_text_lt_total(keys[order[i]], x);
                        lemma_text_lt_transitive(k, keys[order[i]], x);
                    }
                }
            }
            if p < rest.len() {
                assert(text_lt(k, keys[rest[p as int]]));
                assert(keys[order[p as int]] == keys[rest[p as int]]);
            }
        }
        assert forall|i: int| 0 <= i < place_for(keys, order, k) implies !text_lt(
            k,
            #[trigger] keys[order[i]],
        ) by {
            if i < rest.len() {
                assert(keys[order[i]] == keys[rest[i]]);
            }
        }
        assert forall|i: int| place_for(keys, order, k) <= i < order.len() implies text_lt(
            k,
            #[trigger] keys[order[i]],
        ) by {
            if i < rest.len() {
                assert(keys[order[i]] == keys[rest[i]]);
            }
        }
    }
}

/// Sorting gives each of the first `n` places once, in an order where no
/// key comes before the one ahead of it, and places with equal keys keep
/// their order.
pub proof fn lemma_sorted_order(keys: Seq<Seq<char>>, n: int)
    requires
        0 <= n <= keys.len(),
    ensures
        sorted_order(keys, n).len() == n,
        forall|i: int| 0 <= i < n ==> 0 <= #[trigger] sorted_order(keys, n)[i] < n,
        forall|i: int, j: int|
            0 <= i < j < n ==> #[trigger] sorted_order(keys, n)[i] != #[trigger] sorted_order(keys, n)[j],
        in_key_order(keys, sorted_order(keys, n)),
        forall|i: int, j: int|
            0 <= i < j < n && keys[#[trigger] sorted_order(keys, n)[i]] == keys[#[trigger] sorted_order(
                keys,
                n,
            )[j]] ==> sorted_order(keys, n)[i] < sorted_order(keys, n)[j],
    decreases n,
{
    lemma_sorted_order_len(keys, n);
    if n > 0 {
        lemma_sorted_order(keys, n - 1);
        let o = sorted_order(keys, n - 1);
        let k = keys[n - 1];
        lemma_place_split(keys, o, k);
        let p = place_for(keys, o, k) as int;
        let o2 = sorted_order(keys, n);
        assert(o2 == o.insert(p, n - 1));
        assert forall|i: int| 0 <= i < n implies #[trigger] o2[i] == if i < p {
            o[i]
        } else if i == p {
            n - 1
        } else {
            o[i - 1]
        } by {}
        assert forall|i: int, j: int| 0 <= i < j < n implies #[trigger] o2[i] != #[trigger] o2[j] by {
            if i < p && j < p {
            } else if i < p && j == p {
            } else if i < p && j > p {
                assert(o[i] != o[j - 1]);
            } else if i == p {
            } else {
                assert(o[i - 1] != o[j - 1]);
            }
        }
        assert forall|i: int, j: int| 0 <= i < j < n implies !text_lt(
            #[trigger] keys[o2[j]],
            #[trigger] keys[o2[i]],
        ) by {
            if j < p {
                assert(!text_lt(keys[o[j]], keys[o[i]]));
            } else if j == p {
                assert(!text_lt(k, keys[o[i]]));
            } else if i < p {
                assert(!text_lt(keys[o[j - 1]], keys[o[i]]));
            } else if i == p {
                assert(text_lt(k, keys[o[j - 1]]));
                if text_lt(keys[o[j - 1]], k) {
                    lemma_text_lt_transitive(k, keys[o[j - 1]], k);
                    lemma_text_lt_irreflexive(k);
                }
            } else {
                assert(!text_lt(keys[o[j - 1]], keys[o[i - 1]]));
            }
        }
        assert forall|i: int, j: int|
            0 <= i < j < n && keys[#[trigger] o2[i]] == keys[#[trigger] o2[j]] implies o2[i] < o2[j] by {
            if j < p {
            } else if j == p {
            } else if i < p {
            } else if i == p {
                assert(text_lt(k, keys[o[j - 1]]));
                lemma_text_lt_irreflexive(k);
            } else {
            }
        }
    }
}

/// The entries of `s` in the order of `order`.
pub open spec fn permuted<A>(s: Seq<A>, order: Seq<int>) -> Seq<A> {
    Seq::new(order.len(), |i: int| s[order[i]])
}

/// A message in red, line by line.
pub open spec fn red_message(m: Seq<char>) -> Seq<Seq<crate::doc::SpanView>> {
    styled_lines(lines_of(m), red())
}

/// A message in red.
fn red_text(m: &str) -> (t: StyledText)
    ensures
        t@ == red_message(m@),
{
    styled_text(m, crate::doc::SpanStyle { bold: false, italic: false, tint: Some(crate::doc::Tint::Red) })
}

/// `prefix` then `rest`, as a message in red.
fn red_text2(prefix: &str, rest: &str) -> (t: StyledText)
    ensures
        t@ == red_message(prefix@ + rest@),
{
    let mut s = String::new();
    push_str(&mut s, prefix);
    push_str(&mut s, rest);
    red_text(s.as_str())
}

/// The phones of the entries.
pub open spec fn phone_keys(es: Seq<(Seq<char>, Seq<u128>)>) -> Seq<Seq<char>> {
    Seq::new(es.len(), |i: int| es[i].0)
}

/// The pattern as character sequences.
pub open spec fn pattern_view(pattern: Option<(&str, MatchType)>) -> Option<(Seq<char>, MatchType)> {
    match pattern {
        Some((p, m)) => Some((p@, m)),
        None => None,
    }
}

/// Whether the pattern is a regular expression that does not compile.
pub open spec fn bad_regex(pattern: Option<(&str, MatchType)>) -> bool {
    pattern matches Some((p, MatchType::Regex)) && !regex_compiles(p@)
}

/// The phones that the phone command finds: the phone index is built first
/// if there is none, then the phones are sought (see `find_phone`) and
/// sorted by their text. Without any, the message shown in their place:
/// a regular expression that does not compile, or that none were found.
pub fn lookup_phones(
    db: &mut WorkingDatabase,
    pattern: Option<(&str, MatchType)>,
    fuzzy_hits: &Vec<bool>,
    bounds: Option<PopularityBounds>,
) -> (r: Result<Vec<(String, Vec<u128>)>, StyledText>)
    requires
        old(db).wf(),
        pattern matches Some((_, MatchType::Fuzzy)) ==> (old(db).spec_phones() matches Some(ix)
            && fuzzy_hits@.len() == ix.spec_entries().len()),
    ensures
        final(db).wf(),
        final(db).spec_data() == old(db).spec_data(),
        final(db).spec_words() == old(db).spec_words(),
        final(db).spec_ignore_terminal_y() == old(db).spec_ignore_terminal_y(),
        final(db).spec_ignore_h() == old(db).spec_ignore_h(),
        final(db).spec_phones() is Some,
        old(db).spec_phones() is Some ==> final(db).spec_phones() == old(db).spec_phones(),
        ({
            let es = final(db).spec_phones().unwrap().spec_entries();
            let found = found_phones(es, pattern_view(pattern), fuzzy_hits@, bounds, es.len() as int);
            match r {
                Ok(v) => !bad_regex(pattern) && found.len() > 0 && entries_view(v@) == permuted(
                    found,
                    sorted_order(phone_keys(found), found.len() as int),
                ),
                Err(t) => if bad_regex(pattern) {
                    t@ == red_message("regex error "@ + regex_error_message(pattern_view(pattern).unwrap().0))
                } else {
                    found.len() == 0 && t@ == red_message("could not find any matching phones"@)
                },
            }
        }),
{
    let map = db.get_phone_map();
    let found = match crate::db::find_phone(map, pattern, fuzzy_hits, bounds) {
        Ok(v) => v,
        Err(e) => {
            return Err(red_text2("regex error ", e.message.as_str()));
        },
    };
    if found.len() == 0 {
        return Err(red_text("could not find any matching phones"));
    }
    let ghost fv = entries_view(found@);
    let mut keys: Vec<String> = Vec::new();
    let mut i: usize = 0;
    while i < found.len()
        invariant
            fv == entries_view(found@),
            i <= found@.len(),
            strings_view(keys@) == phone_keys(fv).take(i as int),
        decreases found@.len() - i,
    {
        let ghost before = strings_view(keys@);
        let key = found[i].0.clone();
        assert(key@ == phone_keys(fv)[i as int]);
        keys.push(key);
        assert(strings_view(keys@) =~= before.push(phone_keys(fv)[i as int]));
        assert(phone_keys(fv).take(i + 1) =~= phone_keys(fv).take(i as int).push(phone_keys(fv)[i as int]));
        i = i + 1;
    }
    assert(phone_keys(fv).take(found@.len() as int) =~= phone_keys(fv));
    let order = sort_order(&keys);
    proof {
        lemma_sorted_order_len(phone_keys(fv), found@.len() as int);
    }
    let mut out: Vec<(String, Vec<u128>)> = Vec::new();
    let mut k: usize = 0;
    while k < order.len()
        invariant
            fv == entries_view(found@),
            places(order@) == sorted_order(phone_keys(fv), found@.len() as int),
            order@.len() == found@.len(),
            forall|m: int| 0 <= m < found@.len() ==> 0 <= #[trigger] sorted_order(phone_keys(fv), found@.len() as int)[m] < found@.len(),
            k <= order@.len(),
            entries_view(out@) == permuted(fv, places(order@)).take(k as int),
        decreases order@.len() - k,
    {
        let o = order[k];
        assert(places(order@)[k as int] == o as int);
        let entry = (found[o].0.clone(), copy_ids(&found[o].1));
        assert(fv[o as int] == (found@[o as int].0@, found@[o as int].1@));
        let ghost before = entries_view(out@);
        let ghost pv = permuted(fv, places(order@));
        out.push(entry);
        assert(entries_view(out@) =~= before.push(fv[o as int]));
        assert(pv.take(k + 1) =~= pv.take(k as int).push(pv[k as int]));
        k = k + 1;
    }
    assert(permuted(fv, places(order@)).take(order@.len() as int) =~= permuted(fv, places(order@)));
    Ok(out)
}

/// The first variants of the words filed under `ids`, separated by spaces.
pub open spec fn first_variants(ids: Seq<u128>, data: Map<u128, crate::db::WordData>) -> Seq<Seq<char>> {
    Seq::new(ids.len(), |i: int| data[ids[i]].word@.variants[0])
}

/// The first variants of the words filed under `ids`, separated by spaces:
/// what the phone command shows for a phone. Every id must name a stored
/// word that has a variant.
pub fn phone_summary(db: &WorkingDatabase, ids: &Vec<u128>) -> (s: String)
    requires
        forall|i: int|
            0 <= i < ids@.len() ==> db.spec_data().contains_key(#[trigger] ids@[i]) && db.spec_data()[ids@[i]].word@.variants.len() > 0,
    ensures
        s@ == join(first_variants(ids@, db.spec_data()), " "@),
{
    let mut parts: Vec<String> = Vec::new();
    let mut i: usize = 0;
    while i < ids.len()
        invariant
            i <= ids@.len(),
            forall|m: int|
                0 <= m < ids@.len() ==> db.spec_data().contains_key(#[trigger] ids@[m]) && db.spec_data()[ids@[m]].word@.variants.len() > 0,
            strings_view(parts@) == first_variants(ids@, db.spec_data()).take(i as int),
        decreases ids@.len() - i,
    {
        let wd = db.fetch(ids[i]).unwrap();
        assert(wd.word@.variants.len() > 0);
        assert(strings_view(wd.word.variants@)[0] == wd.word.variants@[0]@);
        let ghost before = strings_view(parts@);
        let ghost fvs = first_variants(ids@, db.spec_data());
        let part = wd.word.variants[0].clone();
        assert(part@ == fvs[i as int]);
        parts.push(part);
        assert(strings_view(parts@) =~= before.push(fvs[i as int]));
        assert(fvs.take(i + 1) =~= fvs.take(i as int).push(fvs[i as int]));
        i = i + 1;
    }
    assert(first_variants(ids@, db.spec_data()).take(ids@.len() as int) =~= first_variants(
        ids@,
        db.spec_data(),
    ));
    crate::doc::join_strings(&parts, " ")
}

/// The words filed under `ids`, as spec values.
pub open spec fn words_for(ids: Seq<u128>, data: Map<u128, crate::db::WordData>) -> Seq<WordView> {
    Seq::new(ids.len(), |i: int| data[ids[i]].word@)
}

/// The words of a list of pairs.
pub open spec fn pair_words(v: Seq<(u128, Word)>) -> Seq<WordView> {
    Seq::new(v.len(), |i: int| v[i].1@)
}

/// The ids of a list of pairs.
pub open spec fn pair_ids(v: Seq<(u128, Word)>) -> Seq<u128> {
    Seq::new(v.len(), |i: int| v[i].0)
}

/// The ids of the words that the word command finds: those that
/// `find_word` gives. Without any, the message shown in their place: a
/// regular expression that does not compile, or that no word was found.
pub fn lookup_words(
    db: &mut WorkingDatabase,
    word: &str,
    match_type: MatchType,
    pos_guards: POSTypeFlags,
    fuzzy_hits: &Vec<bool>,
) -> (r: Result<Vec<u128>, StyledText>)
    requires
        old(db).wf(),
        match_type == MatchType::Fuzzy ==> (old(db).spec_words() matches Some(ix)
            && fuzzy_hits@.len() == ix.spec_entries().len()),
    ensures
        final(db).wf(),
        final(db).spec_data() == old(db).spec_data(),
        final(db).spec_phones() == old(db).spec_phones(),
        final(db).spec_ignore_terminal_y() == old(db).spec_ignore_terminal_y(),
        final(db).spec_ignore_h() == old(db).spec_ignore_h(),
        final(db).spec_words() is Some,
        old(db).spec_words() is Some ==> final(db).spec_words() == old(db).spec_words(),
        old(db).words_fresh() ==> final(db).words_fresh(),
        ({
            let es = final(db).spec_words().unwrap().spec_entries();
            let ids = guarded(
                found_ids(es, word@, match_type, fuzzy_hits@, es.len() as int),
                pos_guards,
                final(db).spec_data(),
            );
            match r {
                Ok(v) => !(match_type == MatchType::Regex && !regex_compiles(word@)) && ids.len() > 0
                    && v@ == ids,
                Err(t) => if match_type == MatchType::Regex && !regex_compiles(word@) {
                    t@ == red_message("regex error: "@ + regex_error_message(word@))
                } else {
                    ids.len() == 0 && t@ == red_message("found no words which matched "@ + word@)
                },
            }
        }),
        r matches Ok(v) ==> forall|m: int| 0 <= m < v@.len() ==> final(db).spec_data().contains_key(#[trigger] v@[m]),
{
    let ids = match db.find_word(word, match_type, pos_guards, fuzzy_hits) {
        Ok(v) => v,
        Err(e) => {
            return Err(red_text2("regex error: ", e.message.as_str()));
        },
    };
    if ids.len() == 0 {
        return Err(red_text2("found no words which matched ", word));
    }
    let ghost es = db.spec_words().unwrap().spec_entries();
    proof {
        crate::db::lemma_found_ids_stored(es, word@, match_type, fuzzy_hits@, es.len() as int, db.spec_data());
        crate::db::lemma_guarded_stored(
            found_ids(es, word@, match_type, fuzzy_hits@, es.len() as int),
            pos_guards,
            db.spec_data(),
        );
    }
    Ok(ids)
}

/// The words filed under `ids`, each with its id, sorted by first variant
/// (see `sorted_order`). Every id must name a stored word that has a
/// variant.
pub fn sort_found_words(db: &WorkingDatabase, ids: &Vec<u128>) -> (v: Vec<(u128, Word)>)
    requires
        forall|m: int|
            0 <= m < ids@.len() ==> db.spec_data().contains_key(#[trigger] ids@[m]) && db.spec_data()[ids@[m]].word@.variants.len() > 0,
    ensures
        ({
            let order = sorted_order(first_variants(ids@, db.spec_data()), ids@.len() as int);
            &&& pair_ids(v@) == permuted(ids@, order)
            &&& pair_words(v@) == permuted(words_for(ids@, db.spec_data()), order)
        }),
{
    let ghost data = db.spec_data();
    let mut keys: Vec<String> = Vec::new();
    let mut i: usize = 0;
    while i < ids.len()
        invariant
            data == db.spec_data(),
            forall|m: int|
                0 <= m < ids@.len() ==> data.contains_key(#[trigger] ids@[m]) && data[ids@[m]].word@.variants.len() > 0,
            i <= ids@.len(),
            strings_view(keys@) == first_variants(ids@, data).take(i as int),
        decreases ids@.len() - i,
    {
        let wd = db.fetch(ids[i]).unwrap();
        assert(strings_view(wd.word.variants@)[0] == wd.word.variants@[0]@);
        let ghost before = strings_view(keys@);
        let ghost fvs = first_variants(ids@, data);
        let key = wd.word.variants[0].clone();
        assert(key@ == fvs[i as int]);
        keys.push(key);
        assert(strings_view(keys@) =~= before.push(fvs[i as int]));
        assert(fvs.take(i + 1) =~= fvs.take(i as int).push(fvs[i as int]));
        i = i + 1;
    }
    assert(first_variants(ids@, data).take(ids@.len() as int) =~= first_variants(ids@, data));
    let order = sort_order(&keys);
    proof {
        lemma_sorted_order_len(first_variants(ids@, data), ids@.len() as int);
    }
    let mut out: Vec<(u128, Word)> = Vec::new();
    let mut k: usize = 0;
    while k < order.len()
        invariant
            data == db.spec_data(),
            forall|m: int| 0 <= m < ids@.len() ==> data.contains_key(#[trigger] ids@[m]),
            places(order@) == sorted_order(first_variants(ids@, data), ids@.len() as int),
            order@.len() == ids@.len(),
            forall|m: int|
                0 <= m < ids@.len() ==> 0 <= #[trigger] sorted_order(first_variants(ids@, data), ids@.len() as int)[m]
                    < ids@.len(),
            k <= order@.len(),
            pair_ids(out@) == permuted(ids@, places(order@)).take(k as int),
            pair_words(out@) == permuted(words_for(ids@, data), places(order@)).take(k as int),
        decreases order@.len() - k,
    {
        let o = order[k];
        assert(places(order@)[k as int] == o as int);
        let id = ids[o];
        let wd = db.fetch(id).unwrap();
        let w = wd.word.copy();
        let ghost bi = pair_ids(out@);
        let ghost bw = pair_words(out@);
        let ghost pi = permuted(ids@, places(order@));
        let ghost pw = permuted(words_for(ids@, data), places(order@));
        assert(w@ == pw[k as int]);
        out.push((id, w));
        assert(pair_ids(out@) =~= bi.push(pi[k as int]));
        assert(pair_words(out@) =~= bw.push(pw[k as int]));
        assert(pi.take(k + 1) =~= pi.take(k as int).push(pi[k as int]));
        assert(pw.take(k + 1) =~= pw.take(k as int).push(pw[k as int]));
        k = k + 1;
    }
    assert(permuted(ids@, places(order@)).take(order@.len() as int) =~= permuted(ids@, places(order@)));
    assert(permuted(words_for(ids@, data), places(order@)).take(order@.len() as int) =~= permuted(
        words_for(ids@, data),
        places(order@),
    ));
    out
}

/// Whether every id names a stored word that has a variant.
pub fn all_have_variants(db: &WorkingDatabase, ids: &Vec<u128>) -> (b: bool)
    ensures
        b == forall|m: int|
            0 <= m < ids@.len() ==> db.spec_data().contains_key(#[trigger] ids@[m]) && db.spec_data()[ids@[m]].word@.variants.len() > 0,
{
    let mut i: usize = 0;
    while i < ids.len()
        invariant
            i <= ids@.len(),
            forall|m: int|
                0 <= m < i ==> db.spec_data().contains_key(#[trigger] ids@[m]) && db.spec_data()[ids@[m]].word@.variants.len() > 0,
        decreases ids@.len() - i,
    {
        match db.fetch(ids[i]) {
            None => {
                return false;
            },
            Some(wd) => {
                if wd.word.variants.len() == 0 {
                    return false;
                }
            },
        }
        i = i + 1;
    }
    true
}

} // verus!
