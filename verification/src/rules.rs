//! Saved per-application priorities: the rule map, how rules are cleaned,
//! where they are stored and how a stored file is read back.
use vstd::prelude::*;

use crate::text::{
    chars_of, contains, has_substring, join_path, joined, lemma_lex_lt_strict_total,
    lemma_lex_lt_transitive, lex_lt, precedes, same_chars, string_of, trim, trimmed,
};

verus! {

broadcast use vstd::string::group_string_axioms;

/// Lowest nice value a rule may hold.
pub const MIN_NICE: i32 = -20;

/// Highest nice value a rule may hold.
pub const MAX_NICE: i32 = 19;

/// `nice` bounded to the range the kernel accepts.
pub open spec fn clamped(nice: int) -> int {
    if nice < MIN_NICE {
        MIN_NICE as int
    } else if nice > MAX_NICE {
        MAX_NICE as int
    } else {
        nice
    }
}

/// Bounds a nice value to `-20..=19`.
pub fn clamp_nice(nice: i32) -> (r: i32)
    ensures
        r == clamped(nice as int),
{
    if nice < MIN_NICE {
        MIN_NICE
    } else if nice > MAX_NICE {
        MAX_NICE
    } else {
        nice
    }
}

/// The format version written into a rules file.
pub fn default_version() -> (r: u32)
    ensures
        r == 1,
{
    1
}

// ---------------------------------------------------------------------------
// The rule map.
// ---------------------------------------------------------------------------

/// Key/value pairs as characters and numbers.
pub open spec fn pair_views(v: Seq<(String, i32)>) -> Seq<(Seq<char>, i32)> {
    v.map_values(|e: (String, i32)| (e.0@, e.1))
}

/// The map that a sequence of pairs describes, later pairs overriding
/// earlier ones with the same key.
pub open spec fn map_of(items: Seq<(Seq<char>, i32)>) -> Map<Seq<char>, i32>
    decreases items.len(),
{
    if items.len() == 0 {
        Map::empty()
    } else {
        map_of(items.drop_last()).insert(items.last().0, items.last().1)
    }
}

/// Keys strictly increase in `String` order.
pub open spec fn keys_increase(items: Seq<(Seq<char>, i32)>) -> bool {
    forall|i: int, j: int| 0 <= i < j < items.len() ==> lex_lt(items[i].0, items[j].0)
}

/// Lemma: in a key-ordered sequence, a key is in the map exactly when some
/// pair has it, and the map gives that pair's value.
pub proof fn lemma_map_of(items: Seq<(Seq<char>, i32)>, k: Seq<char>)
    requires
        keys_increase(items),
    ensures
        map_of(items).dom().contains(k) <==> exists|i: int| 0 <= i < items.len() && items[i].0 == k,
        forall|i: int| 0 <= i < items.len() && items[i].0 == k ==> map_of(items)[k] == items[i].1,
    decreases items.len(),
{
    if items.len() > 0 {
        let init = items.drop_last();
        assert(keys_increase(init));
        lemma_map_of(init, k);
        if map_of(init).dom().contains(k) {
            let i = choose|i: int| 0 <= i < init.len() && init[i].0 == k;
            assert(items[i].0 == k);
        }
        assert forall|i: int| 0 <= i < items.len() && items[i].0 == k implies map_of(items)[k]
            == items[i].1 by {
            if i < items.len() - 1 {
                assert(init[i] == items[i]);
                lemma_lex_lt_strict_total(items[i].0, items[i].0);
                assert(lex_lt(items[i].0, items.last().0));
            }
        }
        assert forall|i: int| 0 <= i < items.len() && items[i].0 == k implies map_of(
            items,
        ).dom().contains(k) by {
            if i < items.len() - 1 {
                assert(init[i] == items[i]);
            }
        }
    }
}

/// Saved priorities by rule key (`desktop:<id>` or `exe:<path>`), kept in
/// key order.
pub struct SavedRules {
    entries: Vec<(String, i32)>,
}

impl SavedRules {
    /// The rules in key order.
    pub closed spec fn items(self) -> Seq<(Seq<char>, i32)> {
        pair_views(self.entries@)
    }

    #[verifier::type_invariant]
    closed spec fn keys_in_order(self) -> bool {
        keys_increase(self.items())
    }

    /// An empty rule map.
    pub fn new() -> (r: Self)
        ensures
            r@ == Map::<Seq<char>, i32>::empty(),
            r.items() == Seq::<(Seq<char>, i32)>::empty(),
    {
        let r = SavedRules { entries: Vec::new() };
        assert(r.items() =~= Seq::<(Seq<char>, i32)>::empty());
        r
    }

    /// The number of rules.
    pub fn len(&self) -> (r: usize)
        ensures
            r == self@.dom().len(),
            r == self.items().len(),
    {
        proof {
            use_type_invariant(self);
            self.lemma_dom_len();
        }
        self.entries.len()
    }

    /// Whether there are no rules.
    pub fn is_empty(&self) -> (r: bool)
        ensures
            r == (self@ == Map::<Seq<char>, i32>::empty()),
    {
        proof {
            use_type_invariant(self);
            self.lemma_dom_len();
            if self.entries.len() > 0 {
                lemma_map_of(self.items(), self.items()[0].0);
                assert(self@.dom().contains(self.items()[0].0));
            } else {
                assert(self@ =~= Map::<Seq<char>, i32>::empty());
            }
        }
        self.entries.len() == 0
    }

    /// Lemma: the map has one key per rule.
    proof fn lemma_dom_len(&self)
        requires
            keys_increase(self.items()),
        ensures
            self@.dom().len() == self.items().len(),
            self@.dom().finite(),
    {
        lemma_dom_len_of(self.items());
    }

    /// The index of the rule for `key`, or where it would go.
    fn position(&self, key: &Vec<char>) -> (r: usize)
        ensures
            r <= self.items().len(),
            forall|i: int| 0 <= i < r ==> lex_lt(#[trigger] self.items()[i].0, key@),
            r < self.items().len() ==> !lex_lt(self.items()[r as int].0, key@),
    {
        let mut i: usize = 0;
        while i < self.entries.len()
            invariant
                i <= self.entries.len(),
                self.items().len() == self.entries.len(),
                forall|j: int| 0 <= j < i ==> lex_lt(#[trigger] self.items()[j].0, key@),
            decreases self.entries.len() - i,
        {
            let k = chars_of(&self.entries[i].0);
            assert(k@ == self.items()[i as int].0);
            if !precedes(&k, key) {
                return i;
            }
            i += 1;
        }
        i
    }

    /// The saved nice value for `key`.
    pub fn get(&self, key: &str) -> (r: Option<&i32>)
        ensures
            r matches Some(v) ==> self@.dom().contains(key@) && self@[key@] == *v,
            r is None ==> !self@.dom().contains(key@),
    {
        proof {
            use_type_invariant(self);
            lemma_map_of(self.items(), key@);
        }
        let k = chars_of(key);
        let p = self.position(&k);
        if p < self.entries.len() && same_chars(&chars_of(&self.entries[p].0), &k) {
            return Some(&self.entries[p].1);
        }
        proof {
            assert forall|i: int| 0 <= i < self.items().len() implies self.items()[i].0 != key@ by {
                if i < p {
                    lemma_lex_lt_strict_total(key@, key@);
                } else if i > p {
                    lemma_lex_lt_strict_total(self.items()[p as int].0, key@);
                    lemma_lex_lt_strict_total(self.items()[i].0, key@);
                    if self.items()[i].0 == key@ {
                        lemma_lex_lt_transitive(key@, self.items()[p as int].0, key@);
                    }
                }
            }
        }
        None
    }

    /// Whether a rule is saved for `key`.
    pub fn contains_key(&self, key: &str) -> (r: bool)
        ensures
            r == self@.dom().contains(key@),
    {
        self.get(key).is_some()
    }

    /// Saves `nice` for `key`, replacing any earlier value.
    pub fn insert(&mut self, key: String, nice: i32)
        ensures
            final(self)@ == old(self)@.insert(key@, nice),
    {
        proof {
            use_type_invariant(&*self);
        }
        let k = chars_of(&key);
        let p = self.position(&k);
        let ghost old_items = self.items();
        let mut entries: Vec<(String, i32)> = Vec::new();
        std::mem::swap(&mut entries, &mut self.entries);
        assert(pair_views(entries@) == old_items);
        if p < entries.len() && same_chars(&chars_of(&entries[p].0), &k) {
            entries.remove(p);
            entries.insert(p, (key, nice));
            let ghost new_items = pair_views(entries@);
            assert(new_items =~= old_items.update(p as int, (k@, nice)));
            proof {
                lemma_update_keeps_order(old_items, p as int, k@, nice);
                lemma_map_of_update(old_items, p as int, k@, nice);
            }
        } else {
            entries.insert(p, (key, nice));
            let ghost new_items = pair_views(entries@);
            assert(new_items =~= old_items.insert(p as int, (k@, nice)));
            proof {
                lemma_insert_keeps_order(old_items, p as int, k@, nice);
                lemma_map_of_insert(old_items, p as int, k@, nice);
            }
        }
        self.entries = entries;
    }

    /// Removes the rule for `key`, returning its value.
    pub fn remove(&mut self, key: &str) -> (r: Option<i32>)
        ensures
            final(self)@ == old(self)@.remove(key@),
            r matches Some(v) ==> old(self)@.dom().contains(key@) && old(self)@[key@] == v,
            r is None ==> !old(self)@.dom().contains(key@),
    {
        proof {
            use_type_invariant(&*self);
            lemma_map_of(self.items(), key@);
        }
        let found = match self.get(key) {
            Some(v) => Some(*v),
            None => None,
        };
        if found.is_none() {
            assert(self@.remove(key@) =~= self@);
            return None;
        }
        let k = chars_of(key);
        let p = self.position(&k);
        let ghost old_items = self.items();
        let mut entries: Vec<(String, i32)> = Vec::new();
        std::mem::swap(&mut entries, &mut self.entries);
        assert(pair_views(entries@) == old_items);
        proof {
            let i = choose|i: int| 0 <= i < old_items.len() && old_items[i].0 == key@;
            if i < p {
                lemma_lex_lt_strict_total(key@, key@);
            } else if i > p {
                lemma_lex_lt_strict_total(old_items[p as int].0, key@);
                lemma_lex_lt_transitive(key@, old_items[p as int].0, key@);
                lemma_lex_lt_strict_total(key@, key@);
            }
            assert(i == p);
        }
        entries.remove(p);
        assert(pair_views(entries@) =~= old_items.remove(p as int));
        proof {
            lemma_remove_keeps_order(old_items, p as int);
            lemma_map_of_remove(old_items, p as int);
        }
        self.entries = entries;
        found
    }

    /// The rules as (key, nice) pairs in key order.
    pub fn pairs(&self) -> (r: &Vec<(String, i32)>)
        ensures
            pair_views(r@) == self.items(),
    {
        &self.entries
    }
}

impl View for SavedRules {
    type V = Map<Seq<char>, i32>;

    closed spec fn view(&self) -> Map<Seq<char>, i32> {
        map_of(self.items())
    }
}

/// Lemma: a key-ordered sequence has as many map keys as pairs.
proof fn lemma_dom_len_of(items: Seq<(Seq<char>, i32)>)
    requires
        keys_increase(items),
    ensures
        map_of(items).dom().len() == items.len(),
        map_of(items).dom().finite(),
    decreases items.len(),
{
    if items.len() > 0 {
        let init = items.drop_last();
        assert(keys_increase(init));
        lemma_dom_len_of(init);
        lemma_map_of(init, items.last().0);
        if map_of(init).dom().contains(items.last().0) {
            let i = choose|i: int| 0 <= i < init.len() && init[i].0 == items.last().0;
            assert(lex_lt(items[i].0, items.last().0));
            lemma_lex_lt_strict_total(items.last().0, items.last().0);
        }
    }
}

proof fn lemma_update_keeps_order(items: Seq<(Seq<char>, i32)>, p: int, k: Seq<char>, v: i32)
    requires
        keys_increase(items),
        0 <= p < items.len(),
        items[p].0 == k,
    ensures
        keys_increase(items.update(p, (k, v))),
{
}

proof fn lemma_insert_keeps_order(items: Seq<(Seq<char>, i32)>, p: int, k: Seq<char>, v: i32)
    requires
        keys_increase(items),
        0 <= p <= items.len(),
        forall|i: int| 0 <= i < p ==> lex_lt(#[trigger] items[i].0, k),
        p < items.len() ==> !lex_lt(items[p].0, k) && items[p].0 != k,
    ensures
        keys_increase(items.insert(p, (k, v))),
{
    let n = items.insert(p, (k, v));
    assert forall|i: int, j: int| 0 <= i < j < n.len() implies lex_lt(n[i].0, n[j].0) by {
        if p < items.len() {
            lemma_lex_lt_strict_total(items[p].0, k);
        }
        if j == p {
        } else if i == p {
            if j - 1 > p {
                lemma_lex_lt_transitive(k, items[p].0, items[j - 1].0);
            }
        } else if i < p && j > p {
            if j - 1 > i {
                assert(lex_lt(k, items[j - 1].0)) by {
                    if j - 1 > p {
                        lemma_lex_lt_transitive(k, items[p].0, items[j - 1].0);
                    }
                }
                lemma_lex_lt_transitive(items[i].0, k, items[j - 1].0);
            }
        }
    }
}

proof fn lemma_remove_keeps_order(items: Seq<(Seq<char>, i32)>, p: int)
    requires
        keys_increase(items),
        0 <= p < items.len(),
    ensures
        keys_increase(items.remove(p)),
{
    let n = items.remove(p);
    assert forall|i: int, j: int| 0 <= i < j < n.len() implies lex_lt(n[i].0, n[j].0) by {
        let a = if i < p { i } else { i + 1 };
        let b = if j < p { j } else { j + 1 };
        assert(n[i] == items[a] && n[j] == items[b]);
    }
}

proof fn lemma_map_of_update(items: Seq<(Seq<char>, i32)>, p: int, k: Seq<char>, v: i32)
    requires
        keys_increase(items),
        0 <= p < items.len(),
        items[p].0 == k,
    ensures
        map_of(items.update(p, (k, v))) == map_of(items).insert(k, v),
{
    let n = items.update(p, (k, v));
    lemma_update_keeps_order(items, p, k, v);
    assert forall|q: Seq<char>| #![auto] true implies (map_of(n).dom().contains(q)
        == map_of(items).insert(k, v).dom().contains(q)) by {
        lemma_map_of(items, q);
        lemma_map_of(n, q);
        if map_of(items).dom().contains(q) {
            let i = choose|i: int| 0 <= i < items.len() && items[i].0 == q;
            assert(n[i].0 == q);
        }
        if map_of(n).dom().contains(q) {
            let i = choose|i: int| 0 <= i < n.len() && n[i].0 == q;
            if i != p {
                assert(items[i].0 == q);
            }
        }
    }
    assert forall|q: Seq<char>| map_of(n).dom().contains(q) implies map_of(n)[q] == map_of(
        items,
    ).insert(k, v)[q] by {
        lemma_map_of(items, q);
        lemma_map_of(n, q);
        let i = choose|i: int| 0 <= i < n.len() && n[i].0 == q;
        if i != p {
            assert(items[i].0 == q);
            if q == k {
                lemma_lex_lt_strict_total(k, k);
                assert(lex_lt(n[i].0, n[p].0) || lex_lt(n[p].0, n[i].0));
            }
        }
    }
    assert(map_of(n) =~= map_of(items).insert(k, v));
}

proof fn lemma_map_of_insert(items: Seq<(Seq<char>, i32)>, p: int, k: Seq<char>, v: i32)
    requires
        keys_increase(items),
        0 <= p <= items.len(),
        forall|i: int| 0 <= i < p ==> lex_lt(#[trigger] items[i].0, k),
        p < items.len() ==> !lex_lt(items[p].0, k) && items[p].0 != k,
    ensures
        map_of(items.insert(p, (k, v))) == map_of(items).insert(k, v),
{
    let n = items.insert(p, (k, v));
    lemma_insert_keeps_order(items, p, k, v);
    assert forall|q: Seq<char>| #![auto] true implies (map_of(n).dom().contains(q)
        == map_of(items).insert(k, v).dom().contains(q)) by {
        lemma_map_of(items, q);
        lemma_map_of(n, q);
        if map_of(items).dom().contains(q) {
            let i = choose|i: int| 0 <= i < items.len() && items[i].0 == q;
            if i < p {
                assert(n[i].0 == q);
            } else {
                assert(n[i + 1].0 == q);
            }
        }
        if map_of(n).dom().contains(q) {
            let i = choose|i: int| 0 <= i < n.len() && n[i].0 == q;
            if i < p {
                assert(items[i].0 == q);
            } else if i > p {
                assert(items[i - 1].0 == q);
            }
        }
        assert(n[p].0 == k);
    }
    assert forall|q: Seq<char>| map_of(n).dom().contains(q) implies map_of(n)[q] == map_of(
        items,
    ).insert(k, v)[q] by {
        lemma_map_of(items, q);
        lemma_map_of(n, q);
        let i = choose|i: int| 0 <= i < n.len() && n[i].0 == q;
        if i < p {
            assert(items[i].0 == q);
        } else if i > p {
            assert(items[i - 1].0 == q);
        }
        if i != p && q == k {
            assert(n[p].0 == k);
            lemma_lex_lt_strict_total(k, k);
            assert(lex_lt(n[i].0, n[p].0) || lex_lt(n[p].0, n[i].0));
        }
    }
    assert(map_of(n) =~= map_of(items).insert(k, v));
}

proof fn lemma_map_of_remove(items: Seq<(Seq<char>, i32)>, p: int)
    requires
        keys_increase(items),
        0 <= p < items.len(),
    ensures
        map_of(items.remove(p)) == map_of(items).remove(items[p].0),
{
    let n = items.remove(p);
    let k = items[p].0;
    lemma_remove_keeps_order(items, p);
    assert forall|q: Seq<char>| #![auto] true implies (map_of(n).dom().contains(q)
        == map_of(items).remove(k).dom().contains(q)) by {
        lemma_map_of(items, q);
        lemma_map_of(n, q);
        if map_of(items).dom().contains(q) && q != k {
            let i = choose|i: int| 0 <= i < items.len() && items[i].0 == q;
            if i < p {
                assert(n[i].0 == q);
            } else {
                assert(i != p);
                assert(n[i - 1].0 == q);
            }
        }
        if map_of(n).dom().contains(q) {
            let i = choose|i: int| 0 <= i < n.len() && n[i].0 == q;
            let a = if i < p { i } else { i + 1 };
            assert(items[a].0 == q);
            lemma_lex_lt_strict_total(k, k);
            if a < p {
                assert(lex_lt(items[a].0, items[p].0));
            } else {
                assert(lex_lt(items[p].0, items[a].0));
            }
        }
    }
    assert forall|q: Seq<char>| map_of(n).dom().contains(q) implies map_of(n)[q] == map_of(
        items,
    ).remove(k)[q] by {
        lemma_map_of(items, q);
        lemma_map_of(n, q);
        let i = choose|i: int| 0 <= i < n.len() && n[i].0 == q;
        let a = if i < p { i } else { i + 1 };
        assert(items[a].0 == q);
    }
    assert(map_of(n) =~= map_of(items).remove(k));
}

// ---------------------------------------------------------------------------
// Cleaning, loading and saving.
// ---------------------------------------------------------------------------

/// The rules that survive cleaning, taken in order: keys are trimmed, pairs
/// whose trimmed key is empty are dropped, values are clamped, and a later
/// pair wins over an earlier one with the same trimmed key.
pub open spec fn sanitized(items: Seq<(Seq<char>, i32)>) -> Map<Seq<char>, i32>
    decreases items.len(),
{
    if items.len() == 0 {
        Map::empty()
    } else {
        let prev = sanitized(items.drop_last());
        let key = trim(items.last().0);
        if key.len() == 0 {
            prev
        } else {
            prev.insert(key, clamped(items.last().1 as int) as i32)
        }
    }
}

/// Cleans rules (see `sanitized`).
pub fn sanitize(items: &Vec<(String, i32)>) -> (r: SavedRules)
    ensures
        r@ == sanitized(pair_views(items@)),
{
    let ghost all = pair_views(items@);
    let mut r = SavedRules::new();
    let mut i: usize = 0;
    while i < items.len()
        invariant
            i <= items.len(),
            all == pair_views(items@),
            r@ == sanitized(all.take(i as int)),
        decreases items.len() - i,
    {
        assert(all.take(i + 1).drop_last() =~= all.take(i as int));
        assert(all.take(i + 1).last() == (items@[i as int].0@, items@[i as int].1));
        let key = trimmed(&chars_of(&items[i].0));
        if key.len() > 0 {
            r.insert(string_of(&key), clamp_nice(items[i].1));
        }
        i += 1;
    }
    assert(all.take(i as int) =~= all);
    r
}

/// What `serde_json` reads from `text` as a JSON object whose values are all
/// `i32`: its (key, value) pairs in key order, or `None` when `text` is not
/// such an object.
pub uninterp spec fn json_object_i32(text: Seq<char>) -> Option<Seq<(Seq<char>, i32)>>;

/// `serde_json::from_str::<BTreeMap<String, i32>>`: parses `text` as a JSON
/// object mapping strings to `i32`; the map's pairs come out in key order
/// (`BTreeMap` iterates sorted by key, so the keys strictly increase). How
/// JSON is parsed is not stated; the result is named `json_object_i32`.
#[verifier::external_body]
fn parse_json_object(text: &str) -> (r: Option<Vec<(String, i32)>>)
    ensures
        r matches Some(v) ==> json_object_i32(text@) == Some(pair_views(v@)),
        r matches Some(v) ==> keys_increase(pair_views(v@)),
        r is None ==> json_object_i32(text@) is None,
{
    serde_json::from_str::<std::collections::BTreeMap<String, i32>>(text).ok().map(
        |m| m.into_iter().collect(),
    )
}

/// The rules read from the text of a rules file (`None` when it could not be
/// read), given the rules of its `{"version":..,"rules":{..}}` form when the
/// text parses as that form. That form is used when it parses and the text
/// mentions a `"rules"` key; otherwise the text is read as a flat
/// `{"key": nice, ..}` object; anything else gives no rules.
pub open spec fn loaded(
    contents: Option<Seq<char>>,
    structured: Option<Seq<(Seq<char>, i32)>>,
) -> Map<Seq<char>, i32> {
    match contents {
        None => Map::empty(),
        Some(text) => if structured is Some && contains(text, "\"rules\""@) {
            sanitized(structured->0)
        } else {
            match json_object_i32(text) {
                Some(flat) => sanitized(flat),
                None => Map::empty(),
            }
        },
    }
}

/// Reads saved rules from a rules file's text (see `loaded`).
pub fn load(contents: Option<&str>, structured: Option<&SavedRules>) -> (r: SavedRules)
    ensures
        r@ == loaded(
            contents.deep_view(),
            match structured {
                Some(s) => Some(s.items()),
                None => None,
            },
        ),
{
    let text = match contents {
        Some(t) => t,
        None => {
            return SavedRules::new();
        },
    };
    if let Some(file_rules) = structured {
        if has_substring(&chars_of(text), &chars_of("\"rules\"")) {
            return sanitize(file_rules.pairs());
        }
    }
    match parse_json_object(text) {
        Some(flat) => sanitize(&flat),
        None => SavedRules::new(),
    }
}

/// The contents of a rules file: a format version and the rules.
pub struct RulesFile {
    pub version: u32,
    pub rules: SavedRules,
}

/// The file to write for `rules`: version 1 and the cleaned rules.
pub fn save(rules: &SavedRules) -> (r: RulesFile)
    ensures
        r.version == 1,
        r.rules@ == sanitized(rules.items()),
{
    RulesFile { version: default_version(), rules: sanitize(rules.pairs()) }
}

/// Where the rules file lives: `$XDG_CONFIG_HOME/application-priority-setter/rules.json`,
/// else `$HOME/.config/application-priority-setter/rules.json`, else
/// `rules.json` in the working directory.
pub open spec fn rules_path(xdg_config_home: Option<Seq<char>>, home: Option<Seq<char>>) -> Seq<char> {
    match xdg_config_home {
        Some(dir) => joined(joined(dir, "application-priority-setter"@), "rules.json"@),
        None => match home {
            Some(h) => joined(
                joined(joined(h, ".config"@), "application-priority-setter"@),
                "rules.json"@,
            ),
            None => "rules.json"@,
        },
    }
}

/// The path of the rules file, given `XDG_CONFIG_HOME` and `HOME`.
pub fn config_file_path(xdg_config_home: Option<&str>, home: Option<&str>) -> (r: String)
    ensures
        r@ == rules_path(xdg_config_home.deep_view(), home.deep_view()),
{
    match xdg_config_home {
        Some(dir) => {
            let a = join_path(&chars_of(dir), "application-priority-setter");
            string_of(&join_path(&a, "rules.json"))
        },
        None => match home {
            Some(h) => {
                let a = join_path(&chars_of(h), ".config");
                let b = join_path(&a, "application-priority-setter");
                string_of(&join_path(&b, "rules.json"))
            },
            None => "rules.json".to_owned(),
        },
    }
}

// ---------------------------------------------------------------------------
// Laws.
// ---------------------------------------------------------------------------

/// A clamped nice value lies in `-20..=19`; a value already in range is kept;
/// clamping twice is clamping once.
pub proof fn law_clamp_bounds(nice: int)
    ensures
        MIN_NICE <= clamped(nice) <= MAX_NICE,
        MIN_NICE <= nice <= MAX_NICE ==> clamped(nice) == nice,
        clamped(clamped(nice)) == clamped(nice),
{
}

/// After saving `nice` for `key`, reading `key` gives `nice` back, and every
/// other key reads as before.
pub proof fn law_rule_read_after_write(before: SavedRules, after: SavedRules, key: Seq<char>, nice: i32)
    requires
        after@ == before@.insert(key, nice),
    ensures
        after@.dom().contains(key) && after@[key] == nice,
        forall|other: Seq<char>|
            other != key ==> (after@.dom().contains(other) == before@.dom().contains(other)
                && (before@.dom().contains(other) ==> after@[other] == before@[other])),
{
}

/// After removing `key`, no rule is saved for it, and every other key reads
/// as before.
pub proof fn law_rule_removed(before: SavedRules, after: SavedRules, key: Seq<char>)
    requires
        after@ == before@.remove(key),
    ensures
        !after@.dom().contains(key),
        forall|other: Seq<char>|
            other != key ==> (after@.dom().contains(other) == before@.dom().contains(other)
                && (before@.dom().contains(other) ==> after@[other] == before@[other])),
{
}

/// Rules whose keys are trimmed and non-empty and whose values are in range.
pub open spec fn is_clean(m: Map<Seq<char>, i32>) -> bool {
    forall|k: Seq<char>|
        #![trigger m.dom().contains(k)]
        m.dom().contains(k) ==> k.len() > 0 && trim(k) == k && MIN_NICE <= m[k] <= MAX_NICE
}

/// Lemma: cleaning gives clean rules.
pub proof fn lemma_sanitized_is_clean(items: Seq<(Seq<char>, i32)>)
    ensures
        is_clean(sanitized(items)),
    decreases items.len(),
{
    if items.len() > 0 {
        lemma_sanitized_is_clean(items.drop_last());
        crate::text::lemma_trim_idempotent(items.last().0);
    }
}

/// Lemma: every key of the pairs is a key of their map.
proof fn lemma_map_of_has_keys(items: Seq<(Seq<char>, i32)>, i: int)
    requires
        0 <= i < items.len(),
    ensures
        map_of(items).dom().contains(items[i].0),
    decreases items.len(),
{
    if i < items.len() - 1 {
        lemma_map_of_has_keys(items.drop_last(), i);
        assert(items.drop_last()[i] == items[i]);
    }
}

/// The map with every value clamped.
pub open spec fn clamp_values(m: Map<Seq<char>, i32>) -> Map<Seq<char>, i32> {
    Map::new(|k: Seq<char>| m.dom().contains(k), |k: Seq<char>| clamped(m[k] as int) as i32)
}

/// Lemma: cleaning pairs whose keys are already trimmed and non-empty only
/// clamps the values.
proof fn lemma_sanitized_of_clean_keys(items: Seq<(Seq<char>, i32)>)
    requires
        forall|i: int|
            0 <= i < items.len() ==> (#[trigger] items[i]).0.len() > 0 && trim(items[i].0)
                == items[i].0,
    ensures
        sanitized(items) == clamp_values(map_of(items)),
    decreases items.len(),
{
    if items.len() > 0 {
        let init = items.drop_last();
        assert forall|i: int| 0 <= i < init.len() implies (#[trigger] init[i]).0.len() > 0 && trim(
            init[i].0,
        ) == init[i].0 by {
            assert(init[i] == items[i]);
        }
        lemma_sanitized_of_clean_keys(init);
        assert(items[items.len() - 1] == items.last());
        let k = items.last().0;
        let v = items.last().1;
        assert(clamp_values(map_of(init).insert(k, v)) =~= clamp_values(map_of(init)).insert(
            k,
            clamped(v as int) as i32,
        ));
    } else {
        assert(clamp_values(map_of(items)) =~= Map::<Seq<char>, i32>::empty());
    }
}

/// Cleaning clean rules changes nothing: rules that went through cleaning
/// (as `save` and `load` do) are kept exactly by a second cleaning.
pub proof fn law_cleaning_is_idempotent(rules: SavedRules)
    requires
        is_clean(rules@),
    ensures
        sanitized(rules.items()) == rules@,
{
    let items = rules.items();
    assert forall|i: int| 0 <= i < items.len() implies (#[trigger] items[i]).0.len() > 0 && trim(
        items[i].0,
    ) == items[i].0 by {
        lemma_map_of_has_keys(items, i);
    }
    lemma_sanitized_of_clean_keys(items);
    assert(clamp_values(rules@) =~= rules@);
}

/// Reading back a saved rules file: when the file that `save` made from
/// `rules` is parsed back into its rules and the text names its `"rules"`
/// key, `load` gives the cleaned `rules`.
pub proof fn law_saved_rules_read_back(rules: SavedRules, file: RulesFile, text: Seq<char>)
    requires
        file.rules@ == sanitized(rules.items()),
        contains(text, "\"rules\""@),
    ensures
        loaded(Some(text), Some(file.rules.items())) == sanitized(rules.items()),
{
    lemma_sanitized_is_clean(rules.items());
    law_cleaning_is_idempotent(file.rules);
}

} // verus!
