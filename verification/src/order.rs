//! Which entries of a listing are shown, and in what order.

use vstd::prelude::*;
use vstd::string::StrSliceExecFns;
use vstd::utf8::encode_utf8;
use crate::config::Config;
use crate::entry::{views, Entry, EntryView};

verus! {

/// Whether `a` comes before `b`, or is equal to it, in the byte-wise order of
/// the dictionary, looking only at the positions from `from` on.
pub open spec fn precedes_from(a: Seq<u8>, b: Seq<u8>, from: int) -> bool
    decreases a.len() - from,
{
    if from < 0 || from >= a.len() {
        true
    } else if from >= b.len() {
        false
    } else if a[from] != b[from] {
        a[from] < b[from]
    } else {
        precedes_from(a, b, from + 1)
    }
}

/// Whether `a` comes before `b`, or is equal to it, in the byte-wise order of
/// the dictionary: at the first position where they differ `a` holds the
/// smaller byte, or `a` ends there.
pub open spec fn precedes(a: Seq<u8>, b: Seq<u8>) -> bool {
    precedes_from(a, b, 0)
}

/// The bytes by which an entry is ordered: its name in UTF-8.
pub open spec fn sort_key(entry: EntryView) -> Seq<u8> {
    encode_utf8(entry.name)
}

/// Whether a name is one of the two that stand for a directory itself and for
/// its parent.
pub open spec fn is_pseudo(name: Seq<char>) -> bool {
    name =~= seq!['.'] || name =~= seq!['.', '.']
}

/// Whether a name starts with a dot.
pub open spec fn is_hidden(name: Seq<char>) -> bool {
    name.len() > 0 && name[0] == '.'
}

/// Whether an entry passes the filter on names: `.` and `..` never do, a
/// hidden name only where hidden entries are shown.
pub open spec fn visible(entry: EntryView, show_hidden: bool) -> bool {
    !is_pseudo(entry.name) && (show_hidden || !is_hidden(entry.name))
}

/// Whether an entry gets a line: it passes the filter on names and, where
/// only directories are shown, is a directory.
pub open spec fn listed(entry: EntryView, config: Config) -> bool {
    visible(entry, config.show_hidden) && (config.dirs_only ==> entry.is_directory)
}

/// The number of entries of a listing that pass the filter on names: the
/// number that is held against the entry limit.
pub open spec fn visible_count(listing: Seq<EntryView>, show_hidden: bool) -> nat {
    listing.filter(|entry: EntryView| visible(entry, show_hidden)).len()
}

/// The first position, not before `from`, of `order` whose entry does not
/// precede `key`: the place where an entry with that key joins the order.
pub open spec fn slot(listing: Seq<EntryView>, order: Seq<int>, key: Seq<u8>, from: int) -> int
    decreases order.len() - from,
{
    if from < 0 || from >= order.len() || !precedes(sort_key(listing[order[from]]), key) {
        from
    } else {
        slot(listing, order, key, from + 1)
    }
}

/// The order in which the first `upto` entries of a listing are shown, as
/// indices into the listing: each entry that gets a line joins, in turn, the
/// order of those before it, behind every entry that precedes it.
pub open spec fn arrangement(listing: Seq<EntryView>, config: Config, upto: int) -> Seq<int>
    decreases upto,
{
    if upto <= 0 {
        Seq::empty()
    } else {
        let before = arrangement(listing, config, upto - 1);
        if upto <= listing.len() && listed(listing[upto - 1], config) {
            before.insert(slot(listing, before, sort_key(listing[upto - 1]), 0), upto - 1)
        } else {
            before
        }
    }
}

/// The entries of a listing that are shown, in the order of their lines.
pub open spec fn selection(listing: Seq<EntryView>, config: Config) -> Seq<EntryView> {
    arrangement(listing, config, listing.len() as int).map_values(|index: int| listing[index])
}

/// What makes `order` the arrangement of the first `upto` entries of a
/// listing: it holds only indices of entries that get a line, it holds each
/// of them, and along it the names ascend, entries of equal names staying in
/// the order of the listing.
pub open spec fn is_arrangement(
    order: Seq<int>,
    listing: Seq<EntryView>,
    config: Config,
    upto: int,
) -> bool {
    &&& forall|k: int|
        0 <= k < order.len() ==> 0 <= #[trigger] order[k] < upto && listed(
            listing[order[k]],
            config,
        )
    &&& forall|i: int|
        0 <= i < upto && listed(#[trigger] listing[i], config) ==> order.contains(i)
    &&& forall|j: int, k: int|
        0 <= j < k < order.len() ==> precedes(
            sort_key(listing[#[trigger] order[j]]),
            sort_key(listing[#[trigger] order[k]]),
        ) && (precedes(sort_key(listing[order[k]]), sort_key(listing[order[j]])) ==> order[j]
            < order[k])
}

/// The indices of an order as mathematical integers.
pub open spec fn indices(order: Seq<usize>) -> Seq<int> {
    order.map_values(|index: usize| index as int)
}

/// Every sequence precedes itself.
pub proof fn lemma_precedes_reflexive(a: Seq<u8>, from: int)
    ensures
        precedes_from(a, a, from),
    decreases a.len() - from,
{
    if 0 <= from < a.len() {
        lemma_precedes_reflexive(a, from + 1);
    }
}

/// Of two sequences one precedes the other.
pub proof fn lemma_precedes_total(a: Seq<u8>, b: Seq<u8>, from: int)
    ensures
        precedes_from(a, b, from) || precedes_from(b, a, from),
    decreases a.len() - from,
{
    if 0 <= from < a.len() && from < b.len() && a[from] == b[from] {
        lemma_precedes_total(a, b, from + 1);
    }
}

/// What precedes a sequence precedes all that the sequence precedes.
pub proof fn lemma_precedes_transitive(a: Seq<u8>, b: Seq<u8>, c: Seq<u8>, from: int)
    requires
        precedes_from(a, b, from),
        precedes_from(b, c, from),
    ensures
        precedes_from(a, c, from),
    decreases a.len() - from,
{
    if 0 <= from < a.len() {
        if a[from] == b[from] && b[from] == c[from] {
            lemma_precedes_transitive(a, b, c, from + 1);
        }
    }
}

/// Two sequences that agree before `from` and precede each other from there
/// on are equal.
pub proof fn lemma_precedes_antisymmetric(a: Seq<u8>, b: Seq<u8>, from: int)
    requires
        0 <= from,
        from <= a.len(),
        from <= b.len(),
        forall|i: int| 0 <= i < from ==> a[i] == b[i],
        precedes_from(a, b, from),
        precedes_from(b, a, from),
    ensures
        a == b,
    decreases a.len() - from,
{
    if from < a.len() {
        lemma_precedes_antisymmetric(a, b, from + 1);
    } else {
        assert(a =~= b);
    }
}

/// Where an entry joins an order: behind entries that precede its key, and
/// in front of one that does not.
pub proof fn lemma_slot(listing: Seq<EntryView>, order: Seq<int>, key: Seq<u8>, from: int)
    requires
        0 <= from <= order.len(),
    ensures
        from <= slot(listing, order, key, from) <= order.len(),
        forall|k: int|
            from <= k < slot(listing, order, key, from) ==> precedes(
                sort_key(listing[#[trigger] order[k]]),
                key,
            ),
        slot(listing, order, key, from) < order.len() ==> !precedes(
            sort_key(listing[order[slot(listing, order, key, from)]]),
            key,
        ),
    decreases order.len() - from,
{
    if from < order.len() && precedes(sort_key(listing[order[from]]), key) {
        lemma_slot(listing, order, key, from + 1);
    }
}

/// The arrangement of a listing is what `is_arrangement` describes: exactly
/// the entries that get a line, each once, in ascending order of their names.
pub proof fn lemma_arrangement(listing: Seq<EntryView>, config: Config, upto: int)
    requires
        upto <= listing.len(),
    ensures
        is_arrangement(arrangement(listing, config, upto), listing, config, upto),
    decreases upto,
{
    if upto > 0 {
        let before = arrangement(listing, config, upto - 1);
        let after = arrangement(listing, config, upto);
        lemma_arrangement(listing, config, upto - 1);
        if listed(listing[upto - 1], config) {
            let key = sort_key(listing[upto - 1]);
            let place = slot(listing, before, key, 0);
            lemma_slot(listing, before, key, 0);
            before.insert_ensures(place, upto - 1);
            assert forall|k: int| 0 <= k < after.len() implies 0 <= #[trigger] after[k] < upto
                && listed(listing[after[k]], config) by {
                if k < place {
                    assert(after[k] == before[k]);
                } else if k > place {
                    assert(after[k] == before[k - 1]);
                }
            }
            assert forall|i: int|
                0 <= i < upto && listed(#[trigger] listing[i], config) implies after.contains(
                i,
            ) by {
                if i == upto - 1 {
                    assert(after[place] == i);
                } else {
                    assert(before.contains(i));
                    let k = choose|k: int| 0 <= k < before.len() && before[k] == i;
                    if k < place {
                        assert(after[k] == i);
                    } else {
                        assert(after[k + 1] == before[k]);
                    }
                }
            }
            assert forall|j: int, k: int| 0 <= j < k < after.len() implies precedes(
                sort_key(listing[#[trigger] after[j]]),
                sort_key(listing[#[trigger] after[k]]),
            ) && (precedes(sort_key(listing[after[k]]), sort_key(listing[after[j]]))
                ==> after[j] < after[k]) by {
                lemma_arrangement_step(listing, config, before, key, place, upto - 1, j, k);
            }
        } else {
            assert(after == before);
            assert forall|i: int|
                0 <= i < upto && listed(#[trigger] listing[i], config) implies after.contains(
                i,
            ) by {
                assert(i < upto - 1);
            }
        }
    }
}

/// One pair of positions of an order that an entry has just joined.
proof fn lemma_arrangement_step(
    listing: Seq<EntryView>,
    config: Config,
    before: Seq<int>,
    key: Seq<u8>,
    place: int,
    index: int,
    j: int,
    k: int,
)
    requires
        is_arrangement(before, listing, config, index),
        key == sort_key(listing[index]),
        place == slot(listing, before, key, 0),
        0 <= j < k < before.len() + 1,
    ensures
        precedes(
            sort_key(listing[before.insert(place, index)[j]]),
            sort_key(listing[before.insert(place, index)[k]]),
        ),
        precedes(
            sort_key(listing[before.insert(place, index)[k]]),
            sort_key(listing[before.insert(place, index)[j]]),
        ) ==> before.insert(place, index)[j] < before.insert(place, index)[k],
{
    let after = before.insert(place, index);
    lemma_slot(listing, before, key, 0);
    before.insert_ensures(place, index);
    if k < place {
        assert(after[j] == before[j] && after[k] == before[k]);
    } else if k == place {
        assert(after[j] == before[j]);
        assert(after[k] == index);
        assert(0 <= before[j] < index);
    } else if j > place {
        assert(after[j] == before[j - 1] && after[k] == before[k - 1]);
    } else {
        assert(after[k] == before[k - 1]);
        let first = sort_key(listing[before[place]]);
        let other = sort_key(listing[before[k - 1]]);
        assert(!precedes(first, key));
        lemma_precedes_total(first, key, 0);
        if k - 1 > place {
            assert(precedes(first, other));
        } else {
            lemma_precedes_reflexive(first, 0);
        }
        if j == place {
            assert(after[j] == index);
            lemma_precedes_transitive(key, first, other, 0);
            if precedes(other, key) {
                lemma_precedes_transitive(first, other, key, 0);
            }
        } else {
            assert(after[j] == before[j]);
            assert(j < k - 1);
        }
    }
}

/// No entry that is shown is hidden, unless hidden entries are shown, and
/// none is `.` or `..`.
pub proof fn lemma_selection_visible(listing: Seq<EntryView>, config: Config, k: int)
    requires
        0 <= k < selection(listing, config).len(),
    ensures
        !is_pseudo(selection(listing, config)[k].name),
        !config.show_hidden ==> !is_hidden(selection(listing, config)[k].name),
        config.dirs_only ==> selection(listing, config)[k].is_directory,
        listing.contains(selection(listing, config)[k]),
{
    lemma_arrangement(listing, config, listing.len() as int);
    let order = arrangement(listing, config, listing.len() as int);
    assert(0 <= order[k] < listing.len());
    assert(selection(listing, config)[k] == listing[order[k]]);
}

/// Every entry of a listing that passes the filters is shown.
pub proof fn lemma_selection_complete(listing: Seq<EntryView>, config: Config, i: int)
    requires
        0 <= i < listing.len(),
        listed(listing[i], config),
    ensures
        selection(listing, config).contains(listing[i]),
{
    lemma_arrangement(listing, config, listing.len() as int);
    let order = arrangement(listing, config, listing.len() as int);
    assert(order.contains(i));
    let k = choose|k: int| 0 <= k < order.len() && order[k] == i;
    assert(selection(listing, config)[k] == listing[i]);
}

/// The entries that are shown stand in ascending byte-wise order of their
/// names; where the names differ, the order is strict.
pub proof fn lemma_selection_ascending(listing: Seq<EntryView>, config: Config, j: int, k: int)
    requires
        0 <= j < k < selection(listing, config).len(),
    ensures
        precedes(
            sort_key(selection(listing, config)[j]),
            sort_key(selection(listing, config)[k]),
        ),
        selection(listing, config)[j].name != selection(listing, config)[k].name ==> !precedes(
            sort_key(selection(listing, config)[k]),
            sort_key(selection(listing, config)[j]),
        ),
{
    lemma_arrangement(listing, config, listing.len() as int);
    let order = arrangement(listing, config, listing.len() as int);
    let first = selection(listing, config)[j];
    let second = selection(listing, config)[k];
    assert(first == listing[order[j]]);
    assert(second == listing[order[k]]);
    if precedes(sort_key(second), sort_key(first)) {
        lemma_precedes_antisymmetric(sort_key(first), sort_key(second), 0);
        vstd::utf8::encode_utf8_decode_utf8(first.name);
        vstd::utf8::encode_utf8_decode_utf8(second.name);
    }
}

/// Whether no two entries of a listing bear the same name.
pub open spec fn distinct_names(listing: Seq<EntryView>) -> bool {
    forall|i: int, j: int|
        0 <= i < j < listing.len() ==> (#[trigger] listing[i]).name != (#[trigger] listing[j]).name
}

/// Whether two listings hold the same entries, in whatever order.
pub open spec fn same_entries(a: Seq<EntryView>, b: Seq<EntryView>) -> bool {
    forall|entry: EntryView| a.contains(entry) <==> b.contains(entry)
}

/// Whether the names of a sequence of entries ascend strictly.
pub open spec fn strictly_ascending(entries: Seq<EntryView>) -> bool {
    forall|j: int, k: int|
        0 <= j < k < entries.len() ==> precedes(
            sort_key(#[trigger] entries[j]),
            sort_key(#[trigger] entries[k]),
        ) && !precedes(sort_key(entries[k]), sort_key(entries[j]))
}

/// The entries of a listing without two equal names are shown in strictly
/// ascending order of their names.
pub proof fn lemma_selection_strict(listing: Seq<EntryView>, config: Config)
    requires
        distinct_names(listing),
    ensures
        strictly_ascending(selection(listing, config)),
{
    lemma_arrangement(listing, config, listing.len() as int);
    let order = arrangement(listing, config, listing.len() as int);
    let chosen = selection(listing, config);
    assert forall|j: int, k: int| 0 <= j < k < chosen.len() implies precedes(
        sort_key(#[trigger] chosen[j]),
        sort_key(#[trigger] chosen[k]),
    ) && !precedes(sort_key(chosen[k]), sort_key(chosen[j])) by {
        lemma_selection_ascending(listing, config, j, k);
        assert(chosen[j] == listing[order[j]]);
        assert(chosen[k] == listing[order[k]]);
        assert(0 <= order[j] < listing.len() && 0 <= order[k] < listing.len());
        if order[j] == order[k] {
            lemma_precedes_reflexive(sort_key(listing[order[j]]), 0);
        }
    }
}

/// The entries that are shown are those of the listing that pass the
/// filters, no more and no fewer.
pub proof fn lemma_selection_exact(listing: Seq<EntryView>, config: Config, entry: EntryView)
    ensures
        selection(listing, config).contains(entry) <==> listing.contains(entry) && listed(
            entry,
            config,
        ),
{
    let chosen = selection(listing, config);
    if chosen.contains(entry) {
        let k = choose|k: int| 0 <= k < chosen.len() && chosen[k] == entry;
        lemma_selection_visible(listing, config, k);
    }
    if listing.contains(entry) && listed(entry, config) {
        let i = choose|i: int| 0 <= i < listing.len() && listing[i] == entry;
        lemma_selection_complete(listing, config, i);
    }
}

/// Two sequences that hold the same entries, each in strictly ascending
/// order of the names, are equal.
pub proof fn lemma_ascending_unique(x: Seq<EntryView>, y: Seq<EntryView>)
    requires
        strictly_ascending(x),
        strictly_ascending(y),
        same_entries(x, y),
    ensures
        x == y,
    decreases x.len(),
{
    if x.len() == 0 {
        if y.len() > 0 {
            assert(y.contains(y[0]));
        }
        assert(x =~= y);
    } else {
        assert(x.contains(x[0]));
        let j = choose|j: int| 0 <= j < y.len() && y[j] == x[0];
        assert(y.contains(y[0]));
        let i = choose|i: int| 0 <= i < x.len() && x[i] == y[0];
        lemma_precedes_reflexive(sort_key(x[0]), 0);
        assert(x[0] == y[0]);
        let tail_x = x.drop_first();
        let tail_y = y.drop_first();
        assert forall|entry: EntryView| tail_x.contains(entry) <==> tail_y.contains(entry) by {
            if tail_x.contains(entry) {
                let k = choose|k: int| 0 <= k < tail_x.len() && tail_x[k] == entry;
                assert(x[k + 1] == entry);
                assert(x.contains(entry));
                let m = choose|m: int| 0 <= m < y.len() && y[m] == entry;
                lemma_precedes_reflexive(sort_key(entry), 0);
                assert(m > 0);
                assert(tail_y[m - 1] == entry);
            }
            if tail_y.contains(entry) {
                let k = choose|k: int| 0 <= k < tail_y.len() && tail_y[k] == entry;
                assert(y[k + 1] == entry);
                assert(y.contains(entry));
                let m = choose|m: int| 0 <= m < x.len() && x[m] == entry;
                lemma_precedes_reflexive(sort_key(entry), 0);
                assert(m > 0);
                assert(tail_x[m - 1] == entry);
            }
        }
        assert forall|j: int, k: int| 0 <= j < k < tail_x.len() implies precedes(
            sort_key(#[trigger] tail_x[j]),
            sort_key(#[trigger] tail_x[k]),
        ) && !precedes(sort_key(tail_x[k]), sort_key(tail_x[j])) by {
            assert(tail_x[j] == x[j + 1] && tail_x[k] == x[k + 1]);
        }
        assert forall|j: int, k: int| 0 <= j < k < tail_y.len() implies precedes(
            sort_key(#[trigger] tail_y[j]),
            sort_key(#[trigger] tail_y[k]),
        ) && !precedes(sort_key(tail_y[k]), sort_key(tail_y[j])) by {
            assert(tail_y[j] == y[j + 1] && tail_y[k] == y[k + 1]);
        }
        lemma_ascending_unique(tail_x, tail_y);
        assert(x =~= seq![x[0]] + tail_x);
        assert(y =~= seq![y[0]] + tail_y);
    }
}

/// The order in which a directory hands out its entries does not matter:
/// two listings that hold the same entries, neither with two equal names,
/// show the same entries in the same order.
pub proof fn lemma_selection_order_free(a: Seq<EntryView>, b: Seq<EntryView>, config: Config)
    requires
        distinct_names(a),
        distinct_names(b),
        same_entries(a, b),
    ensures
        selection(a, config) == selection(b, config),
{
    lemma_selection_strict(a, config);
    lemma_selection_strict(b, config);
    assert forall|entry: EntryView|
        selection(a, config).contains(entry) <==> selection(b, config).contains(entry) by {
        lemma_selection_exact(a, config, entry);
        lemma_selection_exact(b, config, entry);
    }
    lemma_ascending_unique(selection(a, config), selection(b, config));
}

/// As many entries are arranged as get a line.
proof fn lemma_arrangement_len(listing: Seq<EntryView>, config: Config, upto: int)
    requires
        0 <= upto <= listing.len(),
        !config.dirs_only,
    ensures
        arrangement(listing, config, upto).len() == visible_count(
            listing.take(upto),
            config.show_hidden,
        ),
    decreases upto,
{
    let passes = |entry: EntryView| visible(entry, config.show_hidden);
    if upto == 0 {
        reveal(Seq::filter);
        assert(listing.take(0) =~= Seq::<EntryView>::empty());
    } else {
        lemma_arrangement_len(listing, config, upto - 1);
        let before = arrangement(listing, config, upto - 1);
        let seen = listing.take(upto - 1);
        assert(listing.take(upto) =~= seen.push(listing[upto - 1]));
        seen.lemma_filter_push(listing[upto - 1], passes);
        if listed(listing[upto - 1], config) {
            lemma_slot(listing, before, sort_key(listing[upto - 1]), 0);
            before.insert_ensures(
                slot(listing, before, sort_key(listing[upto - 1]), 0),
                upto - 1,
            );
        }
    }
}

/// The number that is held against the entry limit does not depend on the
/// order of the listing either.
pub proof fn lemma_count_order_free(a: Seq<EntryView>, b: Seq<EntryView>, show_hidden: bool)
    requires
        distinct_names(a),
        distinct_names(b),
        same_entries(a, b),
    ensures
        visible_count(a, show_hidden) == visible_count(b, show_hidden),
{
    let config = Config {
        show_hidden,
        dirs_only: false,
        follow_symlinks: false,
        max_depth: None,
        entry_limit: None,
        path_style: crate::config::PathStyle::Name,
        root_style: crate::config::PathStyle::Name,
        indent: true,
        colorize: false,
        show_permissions: crate::config::PermissionStyle::Off,
        show_size: crate::config::SizeStyle::Off,
        cycle_detection: crate::config::CycleDetection::Fast,
    };
    lemma_arrangement_len(a, config, a.len() as int);
    lemma_arrangement_len(b, config, b.len() as int);
    lemma_selection_order_free(a, b, config);
    assert(a.take(a.len() as int) =~= a);
    assert(b.take(b.len() as int) =~= b);
    assert(selection(a, config).len() == arrangement(a, config, a.len() as int).len());
    assert(selection(b, config).len() == arrangement(b, config, b.len() as int).len());
    assert(visible_count(a, show_hidden) == arrangement(a, config, a.len() as int).len());
    assert(visible_count(b, show_hidden) == arrangement(b, config, b.len() as int).len());
}

/// Whether `a` comes before `b`, or is equal to it, in the byte-wise order of
/// the dictionary.
pub fn bytes_precede(a: &[u8], b: &[u8]) -> (le: bool)
    ensures
        le == precedes(a@, b@),
{
    let mut i: usize = 0;
    while i < a.len() && i < b.len()
        invariant
            i <= a.len(),
            i <= b.len(),
            precedes(a@, b@) == precedes_from(a@, b@, i as int),
        decreases a.len() - i,
    {
        if a[i] != b[i] {
            return a[i] < b[i];
        }
        i = i + 1;
    }
    i >= a.len()
}

/// Whether an entry passes the filter on names.
pub fn is_visible(entry: &Entry, show_hidden: bool) -> (shown: bool)
    ensures
        shown == visible(entry@, show_hidden),
{
    let name = entry.name.as_str();
    let length: usize = name.unicode_len();
    if length == 0 {
        return true;
    }
    if name.get_char(0) != '.' {
        return true;
    }
    if length == 1 {
        return false;
    }
    if length == 2 && name.get_char(1) == '.' {
        return false;
    }
    show_hidden
}

/// Whether an entry gets a line.
pub fn is_listed(entry: &Entry, config: &Config) -> (shown: bool)
    ensures
        shown == listed(entry@, *config),
{
    is_visible(entry, config.show_hidden) && (!config.dirs_only || entry.is_directory)
}

/// The number of entries of a listing that pass the filter on names.
pub fn count_visible(listing: &Vec<Entry>, show_hidden: bool) -> (count: usize)
    ensures
        count == visible_count(views(listing@), show_hidden),
{
    let ghost passes = |entry: EntryView| visible(entry, show_hidden);
    let mut count: usize = 0;
    let mut i: usize = 0;
    proof {
        reveal(Seq::filter);
        assert(views(listing@).take(0) =~= Seq::<EntryView>::empty());
    }
    while i < listing.len()
        invariant
            i <= listing.len(),
            count <= i,
            passes == |entry: EntryView| visible(entry, show_hidden),
            count == views(listing@).take(i as int).filter(passes).len(),
        decreases listing.len() - i,
    {
        proof {
            let seen = views(listing@).take(i as int);
            assert(views(listing@).take(i + 1) =~= seen.push(listing[i as int]@));
            seen.lemma_filter_push(listing[i as int]@, passes);
        }
        if is_visible(&listing[i], show_hidden) {
            count = count + 1;
        }
        i = i + 1;
    }
    proof {
        assert(views(listing@).take(i as int) =~= views(listing@));
    }
    count
}

/// The place where an entry with the given key joins an order.
fn find_slot(listing: &Vec<Entry>, order: &Vec<usize>, key: &[u8]) -> (place: usize)
    requires
        forall|k: int| 0 <= k < order.len() ==> #[trigger] order[k] < listing.len(),
    ensures
        place == slot(views(listing@), indices(order@), key@, 0),
        place <= order.len(),
{
    let mut place: usize = 0;
    while place < order.len()
        invariant
            place <= order.len(),
            forall|k: int| 0 <= k < order.len() ==> #[trigger] order[k] < listing.len(),
            slot(views(listing@), indices(order@), key@, 0) == slot(
                views(listing@),
                indices(order@),
                key@,
                place as int,
            ),
        decreases order.len() - place,
    {
        let other = &listing[order[place]];
        assert(views(listing@)[indices(order@)[place as int]] == other@);
        if !bytes_precede(other.name.as_str().as_bytes(), key) {
            return place;
        }
        place = place + 1;
    }
    place
}

/// The order in which the entries of a listing are shown, as indices into
/// the listing.
pub fn arrange(listing: &Vec<Entry>, config: &Config) -> (order: Vec<usize>)
    ensures
        indices(order@) == arrangement(views(listing@), *config, listing.len() as int),
        is_arrangement(indices(order@), views(listing@), *config, listing.len() as int),
        forall|k: int| 0 <= k < order.len() ==> #[trigger] order[k] < listing.len(),
{
    let mut order: Vec<usize> = Vec::new();
    let mut i: usize = 0;
    assert(indices(order@) =~= arrangement(views(listing@), *config, 0));
    while i < listing.len()
        invariant
            i <= listing.len(),
            indices(order@) == arrangement(views(listing@), *config, i as int),
            forall|k: int| 0 <= k < order.len() ==> #[trigger] order[k] < i,
        decreases listing.len() - i,
    {
        let entry = &listing[i];
        assert(views(listing@)[i as int] == entry@);
        if is_listed(entry, config) {
            let place = find_slot(listing, &order, entry.name.as_str().as_bytes());
            let ghost before = order@;
            order.insert(place, i);
            proof {
                before.insert_ensures(place as int, i);
                indices(before).insert_ensures(place as int, i as int);
                assert(indices(order@) =~= indices(before).insert(place as int, i as int));
            }
        }
        i = i + 1;
    }
    proof {
        lemma_arrangement(views(listing@), *config, listing.len() as int);
    }
    order
}

} // verus!
