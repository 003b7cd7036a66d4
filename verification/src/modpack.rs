//! The order in which mods are integrated: by priority, lower first; mods of
//! equal priority by name. A mod without a priority of its own has its place
//! among the names in order as its priority.

use crate::cfg_syntax::{read_text, render_text, ParseError};
use crate::json::{json_from_str, json_parsed, json_pretty, json_to_string_pretty};
use crate::stalker2_cfg::Stalker2Cfg;
use crate::text::chars_of;
use vstd::utf8::{decode_utf8, encode_utf8, valid_utf8};
use vstd::prelude::*;
use vstd::relations::{sorted_by, total_ordering};
use vstd::seq_lib::lemma_sorted_unique;

verus! {

/// A mod with the priority under which it is integrated.
pub struct ModEntry {
    pub name: String,
    pub priority: i64,
}

/// A mod as the rules see it.
pub struct ModModel {
    pub name: Seq<char>,
    pub priority: int,
}

impl View for ModEntry {
    type V = ModModel;

    open spec fn view(&self) -> ModModel {
        ModModel { name: self.name@, priority: self.priority as int }
    }
}

/// The order of texts: character by character, by code point, a text
/// before its extensions. It is the order of the UTF-8 bytes.
pub open spec fn text_le(a: Seq<char>, b: Seq<char>) -> bool
    decreases a.len(),
{
    if a.len() == 0 {
        true
    } else if b.len() == 0 {
        false
    } else if a[0] != b[0] {
        (a[0] as u32) < (b[0] as u32)
    } else {
        text_le(a.skip(1), b.skip(1))
    }
}

/// The order of integration: by priority, then by name.
pub open spec fn mod_le(a: ModModel, b: ModModel) -> bool {
    a.priority < b.priority || (a.priority == b.priority && text_le(a.name, b.name))
}

/// `text_le` as a relation.
pub open spec fn text_order() -> spec_fn(Seq<char>, Seq<char>) -> bool {
    |a: Seq<char>, b: Seq<char>| text_le(a, b)
}

/// `mod_le` as a relation.
pub open spec fn mod_order() -> spec_fn(ModModel, ModModel) -> bool {
    |a: ModModel, b: ModModel| mod_le(a, b)
}

/// A text stands at its own place.
pub proof fn lemma_text_le_refl(a: Seq<char>)
    ensures
        text_le(a, a),
    decreases a.len(),
{
    if a.len() > 0 {
        lemma_text_le_refl(a.skip(1));
    }
}

/// Two texts that stand before each other are one text.
pub proof fn lemma_text_le_antisym(a: Seq<char>, b: Seq<char>)
    requires
        text_le(a, b),
        text_le(b, a),
    ensures
        a == b,
    decreases a.len(),
{
    if a.len() > 0 && b.len() > 0 {
        if a[0] != b[0] {
            lemma_code_points_differ(a[0], b[0]);
        }
        lemma_text_le_antisym(a.skip(1), b.skip(1));
        assert(a =~= seq![a[0]] + a.skip(1));
        assert(b =~= seq![b[0]] + b.skip(1));
    } else {
        assert(a =~= b);
    }
}

/// The order of texts is transitive.
pub proof fn lemma_text_le_trans(a: Seq<char>, b: Seq<char>, c: Seq<char>)
    requires
        text_le(a, b),
        text_le(b, c),
    ensures
        text_le(a, c),
    decreases a.len(),
{
    if a.len() > 0 && b.len() > 0 && c.len() > 0 {
        if a[0] == b[0] && b[0] == c[0] {
            lemma_text_le_trans(a.skip(1), b.skip(1), c.skip(1));
        }
    }
}

/// Of two texts one stands before the other.
pub proof fn lemma_text_le_connected(a: Seq<char>, b: Seq<char>)
    ensures
        text_le(a, b) || text_le(b, a),
    decreases a.len(),
{
    if a.len() > 0 && b.len() > 0 {
        if a[0] == b[0] {
            lemma_text_le_connected(a.skip(1), b.skip(1));
        } else {
            lemma_code_points_differ(a[0], b[0]);
        }
    }
}

/// Two characters that differ have different code points.
pub proof fn lemma_code_points_differ(a: char, b: char)
    requires
        a != b,
    ensures
        a as u32 != b as u32,
{
    assert(a as u32 as char == a);
    assert(b as u32 as char == b);
}

/// The order of texts is total.
pub proof fn lemma_text_order_total()
    ensures
        total_ordering(text_order()),
{
    let r = text_order();
    assert forall|x: Seq<char>| #[trigger] r(x, x) by {
        lemma_text_le_refl(x);
    }
    assert forall|x: Seq<char>, y: Seq<char>| #[trigger] r(x, y) && #[trigger] r(y, x) implies x
        == y by {
        lemma_text_le_antisym(x, y);
    }
    assert forall|x: Seq<char>, y: Seq<char>, z: Seq<char>| #[trigger]
        r(x, y) && #[trigger] r(y, z) implies r(x, z) by {
        lemma_text_le_trans(x, y, z);
    }
    assert forall|x: Seq<char>, y: Seq<char>| #[trigger] r(x, y) || #[trigger] r(y, x) by {
        lemma_text_le_connected(x, y);
    }
}

/// The order of integration is transitive.
pub proof fn lemma_mod_le_trans(a: ModModel, b: ModModel, c: ModModel)
    requires
        mod_le(a, b),
        mod_le(b, c),
    ensures
        mod_le(a, c),
{
    if a.priority == b.priority && b.priority == c.priority {
        lemma_text_le_trans(a.name, b.name, c.name);
    }
}

/// Of two mods one is integrated before the other.
pub proof fn lemma_mod_le_connected(a: ModModel, b: ModModel)
    ensures
        mod_le(a, b) || mod_le(b, a),
{
    lemma_text_le_connected(a.name, b.name);
}

/// The order of integration is total.
pub proof fn lemma_mod_order_total()
    ensures
        total_ordering(mod_order()),
{
    let r = mod_order();
    assert forall|x: ModModel| #[trigger] r(x, x) by {
        lemma_text_le_refl(x.name);
    }
    assert forall|x: ModModel, y: ModModel| #[trigger] r(x, y) && #[trigger] r(y, x) implies x
        == y by {
        lemma_text_le_antisym(x.name, y.name);
    }
    assert forall|x: ModModel, y: ModModel, z: ModModel| #[trigger]
        r(x, y) && #[trigger] r(y, z) implies r(x, z) by {
        lemma_mod_le_trans(x, y, z);
    }
    assert forall|x: ModModel, y: ModModel| #[trigger] r(x, y) || #[trigger] r(y, x) by {
        lemma_mod_le_connected(x, y);
    }
}

/// The priority that is set for a name: that of the first pair with the
/// name.
pub open spec fn explicit_priority(overrides: Seq<(Seq<char>, int)>, name: Seq<char>) -> Option<
    int,
>
    decreases overrides.len(),
{
    if overrides.len() == 0 {
        None
    } else if overrides[0].0 == name {
        Some(overrides[0].1)
    } else {
        explicit_priority(overrides.skip(1), name)
    }
}

/// The mods with their priorities, by name: a mod for which none is set has
/// its position as its priority.
pub open spec fn with_priorities(sorted: Seq<Seq<char>>, overrides: Seq<(Seq<char>, int)>) -> Seq<
    ModModel,
> {
    Seq::new(
        sorted.len(),
        |i: int|
            ModModel {
                name: sorted[i],
                priority: match explicit_priority(overrides, sorted[i]) {
                    Some(p) => p,
                    None => i,
                },
            },
    )
}

/// The mods in the order in which they are integrated.
pub open spec fn integration_plan(names: Seq<Seq<char>>, overrides: Seq<(Seq<char>, int)>) -> Seq<
    ModModel,
> {
    with_priorities(names.sort_by(text_order()), overrides).sort_by(mod_order())
}

/// The order of integration does not depend on the order in which the mods
/// are enumerated.
pub proof fn lemma_plan_ignores_enumeration(
    a: Seq<Seq<char>>,
    b: Seq<Seq<char>>,
    overrides: Seq<(Seq<char>, int)>,
)
    requires
        a.to_multiset() == b.to_multiset(),
    ensures
        integration_plan(a, overrides) == integration_plan(b, overrides),
{
    lemma_text_order_total();
    a.lemma_sort_by_ensures(text_order());
    b.lemma_sort_by_ensures(text_order());
    lemma_sorted_unique(a.sort_by(text_order()), b.sort_by(text_order()), text_order());
}

/// The plan is in order, and holds each mod once.
pub proof fn lemma_plan_is_sorted(names: Seq<Seq<char>>, overrides: Seq<(Seq<char>, int)>)
    ensures
        sorted_by(integration_plan(names, overrides), mod_order()),
        integration_plan(names, overrides).len() == names.len(),
{
    lemma_text_order_total();
    lemma_mod_order_total();
    names.lemma_sort_by_ensures(text_order());
    let sorted = names.sort_by(text_order());
    let entries = with_priorities(sorted, overrides);
    entries.lemma_sort_by_ensures(mod_order());
    broadcast use vstd::seq_lib::to_multiset_len;
    assert(sorted.len() == sorted.to_multiset().len());
    assert(names.len() == names.to_multiset().len());
    assert(entries.len() == entries.to_multiset().len());
    assert(entries.sort_by(mod_order()).len() == entries.sort_by(mod_order()).to_multiset().len());
}

/// The mods as the rules see them.
pub open spec fn mod_views(mods: Seq<ModEntry>) -> Seq<ModModel> {
    Seq::new(mods.len(), |i: int| mods[i]@)
}

/// The names of the mods.
pub open spec fn names_of(mods: Seq<ModEntry>) -> Seq<Seq<char>> {
    Seq::new(mods.len(), |i: int| mods[i].name@)
}

/// The texts of the names.
pub open spec fn name_views(names: Seq<String>) -> Seq<Seq<char>> {
    Seq::new(names.len(), |i: int| names[i]@)
}

/// The priorities that are set, by name.
pub open spec fn override_views(overrides: Seq<(String, i64)>) -> Seq<(Seq<char>, int)> {
    Seq::new(overrides.len(), |i: int| (overrides[i].0@, overrides[i].1 as int))
}

/// Whether `a` stands before `b`, or is `b`.
pub fn text_less_eq(a: &str, b: &str) -> (le: bool)
    ensures
        le == text_le(a@, b@),
{
    let x = chars_of(a);
    let y = chars_of(b);
    let mut i: usize = 0;
    assert(x@.skip(0) =~= x@);
    assert(y@.skip(0) =~= y@);
    while i < x.len() && i < y.len() && x[i] == y[i]
        invariant
            i <= x.len(),
            i <= y.len(),
            text_le(x@, y@) == text_le(x@.skip(i as int), y@.skip(i as int)),
        decreases x.len() - i,
    {
        assert(x@.skip(i as int).skip(1) =~= x@.skip(i + 1));
        assert(y@.skip(i as int).skip(1) =~= y@.skip(i + 1));
        i += 1;
    }
    if i >= x.len() {
        true
    } else if i >= y.len() {
        false
    } else {
        (x[i] as u32) < (y[i] as u32)
    }
}

/// Whether `a` is integrated before `b`, or is `b`.
pub fn mod_less_eq(a: &ModEntry, b: &ModEntry) -> (le: bool)
    ensures
        le == mod_le(a@, b@),
{
    a.priority < b.priority || (a.priority == b.priority && text_less_eq(
        a.name.as_str(),
        b.name.as_str(),
    ))
}

/// A sequence without items has no items as a multiset.
pub proof fn lemma_no_items<A>(s: Seq<A>)
    requires
        s.len() == 0,
    ensures
        s.to_multiset() =~= vstd::multiset::Multiset::empty(),
{
    vstd::seq_lib::to_multiset_len(s);
    vstd::multiset::lemma_multiset_empty_len(s.to_multiset());
}

/// The mods in order, each where it belongs among those before it.
pub fn sort_mods(mods: Vec<ModEntry>) -> (out: Vec<ModEntry>)
    ensures
        sorted_by(mod_views(out@), mod_order()),
        mod_views(out@).to_multiset() == mod_views(mods@).to_multiset(),
        names_of(out@).to_multiset() == names_of(mods@).to_multiset(),
        out@.len() == mods@.len(),
{
    broadcast use {
        vstd::seq_lib::to_multiset_build,
        vstd::seq_lib::to_multiset_insert,
        vstd::multiset::group_multiset_axioms,
    };

    let ghost all = mod_views(mods@);
    let ghost all_names = names_of(mods@);
    let mut rest = mods;
    let mut out: Vec<ModEntry> = Vec::new();
    assert(mod_views(out@) =~= Seq::<ModModel>::empty());
    assert(names_of(out@) =~= Seq::<Seq<char>>::empty());
    proof {
        lemma_no_items(mod_views(out@));
        lemma_no_items(names_of(out@));
    }
    assert(mod_views(rest@) == all);
    assert(names_of(rest@) == all_names);
    assert(mod_views(out@).to_multiset().add(mod_views(rest@).to_multiset()) =~= all.to_multiset());
    assert(names_of(out@).to_multiset().add(names_of(rest@).to_multiset())
        =~= all_names.to_multiset());
    while rest.len() > 0
        invariant
            sorted_by(mod_views(out@), mod_order()),
            mod_views(out@).to_multiset().add(mod_views(rest@).to_multiset()) == all.to_multiset(),
            names_of(out@).to_multiset().add(names_of(rest@).to_multiset())
                == all_names.to_multiset(),
            out@.len() + rest@.len() == all.len(),
        decreases rest.len(),
    {
        let ghost rest0 = rest@;
        let ghost out0 = out@;
        let item = rest.pop().unwrap();
        proof {
            assert(mod_views(rest0) =~= mod_views(rest@).push(item@));
            assert(names_of(rest0) =~= names_of(rest@).push(item.name@));
        }
        let mut at: usize = 0;
        while at < out.len() && mod_less_eq(&out[at], &item)
            invariant
                at <= out.len(),
                out@ == out0,
                forall|j: int| 0 <= j < at ==> mod_le(#[trigger] out@[j]@, item@),
            decreases out.len() - at,
        {
            at += 1;
        }
        out.insert(at, item);
        proof {
            let before = mod_views(out0);
            let after = mod_views(out@);
            assert(after =~= before.insert(at as int, item@));
            assert(names_of(out@) =~= names_of(out0).insert(at as int, item.name@));
            vstd::seq_lib::to_multiset_insert(before, at as int, item@);
            vstd::seq_lib::to_multiset_insert(names_of(out0), at as int, item.name@);
            vstd::seq_lib::to_multiset_build(mod_views(rest@), item@);
            vstd::seq_lib::to_multiset_build(names_of(rest@), item.name@);
            assert(after.to_multiset().add(mod_views(rest@).to_multiset()) =~= before.to_multiset().add(
                mod_views(rest0).to_multiset(),
            ));
            assert(names_of(out@).to_multiset().add(names_of(rest@).to_multiset()) =~= names_of(
                out0,
            ).to_multiset().add(names_of(rest0).to_multiset()));
            assert forall|i: int, j: int| 0 <= i < j < after.len() implies #[trigger] mod_order()(
                after[i],
                after[j],
            ) by {
                if j < at {
                    assert(mod_order()(before[i], before[j]));
                } else if j == at {
                    assert(mod_le(out0[i]@, item@));
                } else if i == at {
                    // the item stands before what stood at its place, and so before the rest
                    lemma_mod_le_connected(out0[at as int]@, item@);
                    if j - 1 > at {
                        assert(mod_order()(before[at as int], before[j - 1]));
                        lemma_mod_le_trans(item@, before[at as int], before[j - 1]);
                    }
                } else if i < at {
                    assert(mod_order()(before[i], before[j - 1]));
                } else {
                    assert(mod_order()(before[i - 1], before[j - 1]));
                }
            }
        }
    }
    proof {
        assert(mod_views(rest@) =~= Seq::<ModModel>::empty());
        assert(names_of(rest@) =~= Seq::<Seq<char>>::empty());
        lemma_no_items(mod_views(rest@));
        lemma_no_items(names_of(rest@));
        assert(mod_views(out@).to_multiset() =~= mod_views(out@).to_multiset().add(
            mod_views(rest@).to_multiset(),
        ));
        assert(names_of(out@).to_multiset() =~= names_of(out@).to_multiset().add(
            names_of(rest@).to_multiset(),
        ));
    }
    out
}

/// The priority that is set for a name, if one is set.
pub fn find_priority(overrides: &Vec<(String, i64)>, name: &String) -> (found: Option<i64>)
    ensures
        match found {
            Some(p) => explicit_priority(override_views(overrides@), name@) == Some(p as int),
            None => explicit_priority(override_views(overrides@), name@) is None,
        },
{
    let ghost all = override_views(overrides@);
    let mut i: usize = 0;
    assert(all.skip(0) =~= all);
    while i < overrides.len()
        invariant
            i <= overrides.len(),
            all == override_views(overrides@),
            explicit_priority(all, name@) == explicit_priority(all.skip(i as int), name@),
        decreases overrides.len() - i,
    {
        assert(all.skip(i as int)[0] == all[i as int]);
        assert(all.skip(i as int).skip(1) =~= all.skip(i + 1));
        if overrides[i].0 == *name {
            return Some(overrides[i].1);
        }
        i += 1;
    }
    None
}

/// The mods in the order in which they are integrated: by priority, lower
/// first, and by name among equal priorities. Without a priority of its own
/// a mod has its position among the names in order as its priority.
pub fn integration_order(names: &Vec<String>, overrides: &Vec<(String, i64)>) -> (order: Vec<
    ModEntry,
>)
    requires
        names.len() <= i64::MAX,
    ensures
        mod_views(order@) == integration_plan(name_views(names@), override_views(overrides@)),
{
    let ghost all = name_views(names@);
    let mut unordered: Vec<ModEntry> = Vec::new();
    let mut i: usize = 0;
    while i < names.len()
        invariant
            i <= names.len(),
            all == name_views(names@),
            unordered@.len() == i,
            forall|j: int| 0 <= j < i ==> (#[trigger] unordered@[j])@ == (ModModel {
                name: all[j],
                priority: 0,
            }),
        decreases names.len() - i,
    {
        unordered.push(ModEntry { name: names[i].clone(), priority: 0 });
        i += 1;
    }
    assert(names_of(unordered@) =~= all);
    let by_name = sort_mods(unordered);
    let ghost sorted = names_of(by_name@);
    proof {
        lemma_text_order_total();
        all.lemma_sort_by_ensures(text_order());
        assert forall|j: int| 0 <= j < by_name@.len() implies (#[trigger] by_name@[j]).priority
            == 0 by {
            let m = mod_views(by_name@)[j];
            vstd::seq_lib::to_multiset_contains(mod_views(by_name@), m);
            vstd::seq_lib::to_multiset_contains(mod_views(unordered@), m);
            assert(mod_views(by_name@).contains(m));
            let k = choose|k: int|
                0 <= k < mod_views(unordered@).len() && mod_views(unordered@)[k] == m;
            assert(unordered@[k]@ == m);
        }
        assert forall|a: int, b: int| 0 <= a < b < sorted.len() implies #[trigger] text_order()(
            sorted[a],
            sorted[b],
        ) by {
            assert(mod_order()(mod_views(by_name@)[a], mod_views(by_name@)[b]));
        }
        lemma_sorted_unique(sorted, all.sort_by(text_order()), text_order());
    }
    let mut entries: Vec<ModEntry> = Vec::new();
    let mut k: usize = 0;
    while k < by_name.len()
        invariant
            k <= by_name.len() <= i64::MAX,
            sorted == names_of(by_name@),
            entries@.len() == k,
            forall|j: int|
                0 <= j < k ==> (#[trigger] entries@[j])@ == with_priorities(
                    sorted,
                    override_views(overrides@),
                )[j],
        decreases by_name.len() - k,
    {
        let name = by_name[k].name.clone();
        let priority = match find_priority(overrides, &name) {
            Some(p) => p,
            None => k as i64,
        };
        entries.push(ModEntry { name, priority });
        k += 1;
    }
    let ghost planned = with_priorities(sorted, override_views(overrides@));
    assert(mod_views(entries@) =~= planned);
    let order = sort_mods(entries);
    proof {
        lemma_mod_order_total();
        planned.lemma_sort_by_ensures(mod_order());
        lemma_sorted_unique(mod_views(order@), planned.sort_by(mod_order()), mod_order());
    }
    order
}

/// Why the content of a file is not brought into its normal form.
#[derive(Debug, Clone, Copy, PartialEq, Eq, Structural)]
pub enum NormalizeError {
    /// The content is no UTF-8 text.
    NotUtf8,
    /// The content of a `json` file is no JSON.
    JsonSyntax,
    /// The JSON value could not be written.
    JsonWrite,
    /// The content of a `cfg` file is no document.
    CfgSyntax { error: ParseError },
}

/// `std::str::from_utf8`: the text that the bytes encode, if they are valid
/// UTF-8.
#[verifier::external_body]
fn text_of_bytes(bytes: &[u8]) -> (text: Option<&str>)
    ensures
        match text {
            Some(s) => valid_utf8(bytes@) && s@ == decode_utf8(bytes@),
            None => !valid_utf8(bytes@),
        },
{
    std::str::from_utf8(bytes).ok()
}

/// The normal form of the content of a file with this extension: JSON is
/// written with indentation, a struct configuration is written as the
/// document that it holds, anything else stays as it is.
pub open spec fn normalized(extension: Option<Seq<char>>, content: Seq<u8>) -> Result<
    Seq<u8>,
    NormalizeError,
> {
    if extension == Some("json"@) {
        if !valid_utf8(content) {
            Err(NormalizeError::NotUtf8)
        } else {
            match json_parsed(decode_utf8(content)) {
                Some(value) => match json_pretty(value) {
                    Some(text) => Ok(encode_utf8(text)),
                    None => Err(NormalizeError::JsonWrite),
                },
                None => Err(NormalizeError::JsonSyntax),
            }
        }
    } else if extension == Some("cfg"@) {
        if !valid_utf8(content) {
            Err(NormalizeError::NotUtf8)
        } else {
            match read_text(decode_utf8(content)) {
                Ok(entries) => Ok(encode_utf8(render_text(entries))),
                Err(error) => Err(NormalizeError::CfgSyntax { error }),
            }
        }
    } else {
        Ok(content)
    }
}

fn same_text(a: &str, b: &str) -> (same: bool)
    ensures
        same == (a@ == b@),
{
    let x = chars_of(a);
    let y = chars_of(b);
    if x.len() != y.len() {
        return false;
    }
    let mut i: usize = 0;
    while i < x.len()
        invariant
            i <= x.len() == y.len(),
            x@ == a@,
            y@ == b@,
            forall|j: int| 0 <= j < i ==> x@[j] == y@[j],
        decreases x.len() - i,
    {
        if x[i] != y[i] {
            assert(x@[i as int] != y@[i as int]);
            return false;
        }
        i += 1;
    }
    assert(x@ =~= y@);
    true
}

/// Brings the content of a file into its normal form before it is written
/// to the workspace. `extension` is that of the file's name, `name` the name
/// itself.
pub fn normalize_content(extension: Option<&str>, name: &str, content: &Vec<u8>) -> (result: Result<
    Vec<u8>,
    NormalizeError,
>)
    ensures
        match result {
            Ok(bytes) => normalized(
                match extension {
                    Some(e) => Some(e@),
                    None => None,
                },
                content@,
            ) == Ok::<Seq<u8>, NormalizeError>(bytes@),
            Err(e) => normalized(
                match extension {
                    Some(e) => Some(e@),
                    None => None,
                },
                content@,
            ) == Err::<Seq<u8>, NormalizeError>(e),
        },
{
    let is_json = match extension {
        Some(e) => same_text(e, "json"),
        None => false,
    };
    let is_cfg = match extension {
        Some(e) => same_text(e, "cfg"),
        None => false,
    };
    proof {
        reveal_strlit("json");
        reveal_strlit("cfg");
        assert("json"@.len() == 4 && "cfg"@.len() == 3);
    }
    if is_json {
        let text = match text_of_bytes(content.as_slice()) {
            Some(text) => text,
            None => {
                return Err(NormalizeError::NotUtf8);
            },
        };
        let value = match json_from_str(text) {
            Ok(value) => value,
            Err(_) => {
                return Err(NormalizeError::JsonSyntax);
            },
        };
        match json_to_string_pretty(&value) {
            Ok(pretty) => Ok(pretty.as_str().as_bytes_vec()),
            Err(_) => Err(NormalizeError::JsonWrite),
        }
    } else if is_cfg {
        let text = match text_of_bytes(content.as_slice()) {
            Some(text) => text,
            None => {
                return Err(NormalizeError::NotUtf8);
            },
        };
        match Stalker2Cfg::from_str(name.to_owned(), text) {
            Ok(doc) => Ok(doc.to_string().as_str().as_bytes_vec()),
            Err(error) => Err(NormalizeError::CfgSyntax { error }),
        }
    } else {
        Ok(content.clone())
    }
}

} // verus!
