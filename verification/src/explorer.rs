//! The explorer's navigation state: which device is selected, which hubs are
//! collapsed, and which configuration and alternate settings are viewed.
use crate::inventory::DeviceRow;
use crate::usb::{Configuration, Interface};
use vstd::prelude::*;

verus! {

/// The row that is selected when nothing is: the first device without
/// devices below it, or else the first row.
pub open spec fn default_selection_of(rows: Seq<DeviceRow>) -> Option<Seq<char>> {
    if exists|i: int| 0 <= i < rows.len() && !(#[trigger] rows[i]).has_children {
        let i = choose|i: int|
            0 <= i < rows.len() && !(#[trigger] rows[i]).has_children && forall|j: int|
                0 <= j < i ==> (#[trigger] rows[j]).has_children;
        Some(rows[i].key@)
    } else if rows.len() > 0 {
        Some(rows[0].key@)
    } else {
        None
    }
}

/// With nothing selected, the first row without devices below it is
/// selected, counting from the very first row.
pub proof fn law_default_selection_is_first_leaf(rows: Seq<DeviceRow>, i: int)
    requires
        0 <= i < rows.len(),
        !rows[i].has_children,
        forall|j: int| 0 <= j < i ==> (#[trigger] rows[j]).has_children,
    ensures
        default_selection_of(rows) == Some(rows[i].key@),
{
    let w = choose|w: int|
        0 <= w < rows.len() && !(#[trigger] rows[w]).has_children && forall|j: int|
            0 <= j < w ==> (#[trigger] rows[j]).has_children;
    assert(0 <= w < rows.len() && !rows[w].has_children && forall|j: int| 0 <= j < w ==> (#[trigger] rows[j]).has_children)
        by {
        assert(!rows[i].has_children);
    }
    if w < i {
        assert(rows[w].has_children);
    }
    if i < w {
        assert(rows[i].has_children);
    }
}

/// When every row has devices below it, the first row is selected; with no
/// rows, nothing is.
pub proof fn law_default_selection_without_leaves(rows: Seq<DeviceRow>)
    requires
        forall|j: int| 0 <= j < rows.len() ==> (#[trigger] rows[j]).has_children,
    ensures
        rows.len() > 0 ==> default_selection_of(rows) == Some(rows[0].key@),
        rows.len() == 0 ==> default_selection_of(rows) is None,
{
}

/// Whether some row has the given identity.
pub open spec fn has_row(rows: Seq<DeviceRow>, key: Seq<char>) -> bool {
    exists|i: int| 0 <= i < rows.len() && (#[trigger] rows[i]).key@ == key
}

/// The view of an optional string.
pub open spec fn key_view(key: Option<String>) -> Option<Seq<char>> {
    match key {
        Some(k) => Some(k@),
        None => None,
    }
}

/// The navigation state of the explorer.
pub struct ViewState {
    /// The identity of the selected device; kept while the device is
    /// disconnected.
    pub selected: Option<String>,
    /// The configuration the user chose to view.
    pub config: Option<u8>,
    /// Alternate settings the user chose to view, as
    /// (configuration, interface, alternate setting).
    pub alternatives: Vec<(u8, u8, u8)>,
    /// Identities of collapsed hubs.
    pub collapsed: Vec<String>,
}

/// The alternate setting chosen for an interface: the last choice made for it.
pub open spec fn chosen_alternative(alternatives: Seq<(u8, u8, u8)>, config: u8, number: u8) -> Option<u8>
    decreases alternatives.len(),
{
    if alternatives.len() == 0 {
        None
    } else if alternatives.last().0 == config && alternatives.last().1 == number {
        Some(alternatives.last().2)
    } else {
        chosen_alternative(alternatives.drop_last(), config, number)
    }
}

/// Whether an identity is among the collapsed hubs.
pub open spec fn collapsed_has(collapsed: Seq<String>, key: Seq<char>) -> bool {
    exists|c: int| 0 <= c < collapsed.len() && (#[trigger] collapsed[c])@ == key
}

/// `after` differs from `before` in exactly one identity: `key` is collapsed
/// in one of them and expanded in the other.
pub open spec fn toggled(before: Seq<String>, after: Seq<String>, key: Seq<char>) -> bool {
    &&& collapsed_has(after, key) == !collapsed_has(before, key)
    &&& forall|other: Seq<char>|
        other != key ==> #[trigger] collapsed_has(after, other) == collapsed_has(before, other)
}

/// Toggling a hub twice leaves every hub as it was.
pub proof fn law_toggle_twice_restores(a: Seq<String>, b: Seq<String>, c: Seq<String>, key: Seq<char>)
    requires
        toggled(a, b, key),
        toggled(b, c, key),
    ensures
        forall|other: Seq<char>| #[trigger] collapsed_has(c, other) == collapsed_has(a, other),
{
    assert forall|other: Seq<char>| #[trigger] collapsed_has(c, other) == collapsed_has(a, other) by {
        if other != key {
            assert(collapsed_has(c, other) == collapsed_has(b, other));
            assert(collapsed_has(b, other) == collapsed_has(a, other));
        }
    }
}

/// Reading back an alternate setting gives the last one chosen for that
/// interface, and a choice for one interface leaves the others as they were.
pub proof fn law_alternative_reads_back_last_choice(
    alternatives: Seq<(u8, u8, u8)>,
    config: u8,
    number: u8,
    alt: u8,
)
    ensures
        chosen_alternative(alternatives.push((config, number, alt)), config, number) == Some(alt),
        forall|c: u8, i: u8|
            !(c == config && i == number) ==> #[trigger] chosen_alternative(
                alternatives.push((config, number, alt)),
                c,
                i,
            ) == chosen_alternative(alternatives, c, i),
{
    assert(alternatives.push((config, number, alt)).drop_last() =~= alternatives);
}

proof fn lemma_has_push(s: Seq<String>, x: String, key: Seq<char>)
    ensures
        collapsed_has(s.push(x), key) == (collapsed_has(s, key) || x@ == key),
{
    let t = s.push(x);
    if collapsed_has(t, key) {
        let c = choose|c: int| 0 <= c < t.len() && (#[trigger] t[c])@ == key;
        if c < s.len() {
            assert(s[c] == t[c]);
        }
    }
    if collapsed_has(s, key) {
        let c = choose|c: int| 0 <= c < s.len() && (#[trigger] s[c])@ == key;
        assert(t[c] == s[c]);
    }
    if x@ == key {
        assert(t[s.len() as int] == x);
    }
}

fn first_leaf(rows: &Vec<DeviceRow>) -> (key: Option<String>)
    ensures
        key_view(key) == default_selection_of(rows@),
{
    let n = rows.len();
    for i in 0..n
        invariant
            n == rows@.len(),
            forall|j: int| 0 <= j < i ==> (#[trigger] rows@[j]).has_children,
    {
        if !rows[i].has_children {
            proof {
                let w = choose|w: int|
                    0 <= w < rows@.len() && !(#[trigger] rows@[w]).has_children && forall|j: int|
                        0 <= j < w ==> (#[trigger] rows@[j]).has_children;
                assert(0 <= w < rows@.len() && !rows@[w].has_children && forall|j: int|
                    0 <= j < w ==> (#[trigger] rows@[j]).has_children) by {
                    assert(0 <= i < rows@.len() && !rows@[i as int].has_children && forall|j: int|
                        0 <= j < i ==> (#[trigger] rows@[j]).has_children);
                }
                if w < i {
                    assert(rows@[w].has_children);
                }
                if i < w {
                    assert(rows@[i as int].has_children);
                }
            }
            return Some(rows[i].key.clone());
        }
    }
    if n > 0 {
        Some(rows[0].key.clone())
    } else {
        None
    }
}

fn has_key(rows: &Vec<DeviceRow>, key: &String) -> (found: bool)
    ensures
        found == has_row(rows@, key@),
{
    let n = rows.len();
    for i in 0..n
        invariant
            n == rows@.len(),
            forall|j: int| 0 <= j < i ==> (#[trigger] rows@[j]).key@ != key@,
    {
        if rows[i].key == *key {
            return true;
        }
    }
    false
}

impl ViewState {
    /// Nothing selected, nothing collapsed, no choices made.
    pub fn new() -> (state: ViewState)
        ensures
            state.selected is None,
            state.config is None,
            state.alternatives@.len() == 0,
            state.collapsed@.len() == 0,
    {
        ViewState { selected: None, config: None, alternatives: Vec::new(), collapsed: Vec::new() }
    }

    /// Show freshly read rows. A selection is kept even when its device has
    /// disconnected, instead of jumping to another device; with no
    /// selection, the first device without devices below it is selected.
    pub fn apply_rows(&mut self, rows: &Vec<DeviceRow>)
        ensures
            old(self).selected is Some ==> final(self).selected == old(self).selected,
            old(self).selected is None ==> key_view(final(self).selected) == default_selection_of(rows@),
            final(self).config == old(self).config,
            final(self).alternatives == old(self).alternatives,
            final(self).collapsed == old(self).collapsed,
    {
        if self.selected.is_none() {
            self.selected = first_leaf(rows);
        }
    }

    /// Show the rows of an opened snapshot: the selection is kept only if
    /// the snapshot has that device, and the viewed configuration and
    /// alternate settings are reset.
    pub fn open_rows(&mut self, rows: &Vec<DeviceRow>)
        ensures
            (old(self).selected matches Some(k) && has_row(rows@, k@)) ==> final(self).selected == old(self).selected,
            !(old(self).selected matches Some(k) && has_row(rows@, k@)) ==> key_view(final(self).selected) == default_selection_of(rows@),
            final(self).config is None,
            final(self).alternatives@.len() == 0,
            final(self).collapsed == old(self).collapsed,
    {
        let keep = match &self.selected {
            Some(k) => has_key(rows, k),
            None => false,
        };
        if !keep {
            self.selected = None;
        }
        self.config = None;
        self.alternatives = Vec::new();
        self.apply_rows(rows);
    }

    /// Select a device; returns whether the selection changed. Choosing
    /// another device resets the viewed configuration and alternate settings.
    pub fn select(&mut self, key: String) -> (changed: bool)
        ensures
            changed == (key_view(old(self).selected) != Some(key@)),
            key_view(final(self).selected) == Some(key@),
            changed ==> final(self).config is None && final(self).alternatives@.len() == 0,
            !changed ==> final(self).config == old(self).config && final(self).alternatives
                == old(self).alternatives,
            final(self).collapsed == old(self).collapsed,
    {
        let same = match &self.selected {
            Some(current) => *current == key,
            None => false,
        };
        if same {
            return false;
        }
        self.selected = Some(key);
        self.config = None;
        self.alternatives = Vec::new();
        true
    }

    /// Expand a collapsed hub, or collapse an expanded one.
    pub fn toggle_collapsed(&mut self, key: &String)
        ensures
            toggled(old(self).collapsed@, final(self).collapsed@, key@),
            final(self).selected == old(self).selected,
            final(self).config == old(self).config,
            final(self).alternatives == old(self).alternatives,
    {
        let ghost before = self.collapsed@;
        let mut kept: Vec<String> = Vec::new();
        let mut removed = false;
        let n = self.collapsed.len();
        for i in 0..n
            invariant
                n == before.len(),
                self.collapsed@ == before,
                removed == collapsed_has(before.take(i as int), key@),
                forall|other: Seq<char>|
                    other != key@ ==> collapsed_has(kept@, other) == collapsed_has(
                        before.take(i as int),
                        other,
                    ),
                !collapsed_has(kept@, key@),
        {
            let entry = &self.collapsed[i];
            let ghost prev = kept@;
            let ghost seen = before.take(i as int);
            proof {
                assert(before.take(i + 1) =~= seen.push(*entry));
                assert forall|other: Seq<char>|
                    collapsed_has(before.take(i + 1), other) == (collapsed_has(seen, other)
                        || entry@ == other) by {
                    lemma_has_push(seen, *entry, other);
                }
            }
            if *entry == *key {
                removed = true;
            } else {
                kept.push(entry.clone());
                proof {
                    assert forall|other: Seq<char>|
                        collapsed_has(kept@, other) == (collapsed_has(prev, other) || entry@
                            == other) by {
                        lemma_has_push(prev, *entry, other);
                    }
                }
            }
            proof {
                assert forall|other: Seq<char>| other != key@ implies collapsed_has(kept@, other)
                    == collapsed_has(before.take(i + 1), other) by {
                    assert(collapsed_has(prev, other) == collapsed_has(seen, other));
                    assert(collapsed_has(before.take(i + 1), other) == (collapsed_has(seen, other)
                        || entry@ == other));
                }
            }
        }
        proof {
            assert(before.take(n as int) =~= before);
        }
        if !removed {
            let ghost prev = kept@;
            kept.push(key.clone());
            proof {
                assert forall|other: Seq<char>| other != key@ implies collapsed_has(kept@, other)
                    == collapsed_has(before, other) by {
                    lemma_has_push(prev, *key, other);
                    assert(collapsed_has(prev, other) == collapsed_has(before.take(n as int), other));
                }
                lemma_has_push(prev, *key, key@);
            }
        }
        self.collapsed = kept;
    }

    /// Record the user's choice to view an alternate setting of an interface;
    /// this does not change the device.
    pub fn choose_alternative(&mut self, config: u8, number: u8, alt: u8)
        ensures
            chosen_alternative(final(self).alternatives@, config, number) == Some(alt),
            forall|c: u8, i: u8|
                !(c == config && i == number) ==> chosen_alternative(final(self).alternatives@, c, i)
                    == chosen_alternative(old(self).alternatives@, c, i),
            final(self).selected == old(self).selected,
            final(self).config == old(self).config,
            final(self).collapsed == old(self).collapsed,
    {
        let ghost before = self.alternatives@;
        self.alternatives.push((config, number, alt));
        proof {
            assert(self.alternatives@.drop_last() =~= before);
        }
    }

    /// The alternate setting chosen for an interface, if any.
    pub fn alternative(&self, config: u8, number: u8) -> (alt: Option<u8>)
        ensures
            alt == chosen_alternative(self.alternatives@, config, number),
    {
        let mut i = self.alternatives.len();
        proof {
            assert(self.alternatives@.take(i as int) =~= self.alternatives@);
        }
        while i > 0
            invariant
                i <= self.alternatives@.len(),
                chosen_alternative(self.alternatives@, config, number) == chosen_alternative(
                    self.alternatives@.take(i as int),
                    config,
                    number,
                ),
            decreases i,
        {
            let entry = self.alternatives[i - 1];
            proof {
                let t = self.alternatives@.take(i as int);
                assert(t.drop_last() =~= self.alternatives@.take(i - 1));
                assert(t.last() == entry);
            }
            if entry.0 == config && entry.1 == number {
                return Some(entry.2);
            }
            i = i - 1;
        }
        None
    }

    /// Choose a configuration to view.
    pub fn choose_config(&mut self, number: u8)
        ensures
            final(self).config == Some(number),
            final(self).selected == old(self).selected,
            final(self).alternatives == old(self).alternatives,
            final(self).collapsed == old(self).collapsed,
    {
        self.config = Some(number);
    }
}

/// The configuration shown: the one the user chose, else the active one,
/// else the first.
pub open spec fn shown_config_of(configs: Seq<Configuration>, wanted: Option<u8>) -> Option<int> {
    if exists|i: int| 0 <= i < configs.len() && Some((#[trigger] configs[i]).number) == wanted {
        Some(choose|i: int| 0 <= i < configs.len() && Some((#[trigger] configs[i]).number) == wanted
            && forall|j: int| 0 <= j < i ==> Some((#[trigger] configs[j]).number) != wanted)
    } else if exists|i: int| 0 <= i < configs.len() && (#[trigger] configs[i]).active {
        Some(choose|i: int| 0 <= i < configs.len() && (#[trigger] configs[i]).active && forall|j: int|
            0 <= j < i ==> !(#[trigger] configs[j]).active)
    } else if configs.len() > 0 {
        Some(0)
    } else {
        None
    }
}

/// The position of the first configuration with the wanted number
/// (`by_number`), or of the first active one.
fn first_where_config(configs: &Vec<Configuration>, wanted: Option<u8>, by_number: bool) -> (found: Option<usize>)
    ensures
        by_number ==> match found {
            Some(i) => i < configs@.len() && Some(configs@[i as int].number) == wanted && forall|j: int|
                0 <= j < i ==> Some((#[trigger] configs@[j]).number) != wanted,
            None => forall|j: int| 0 <= j < configs@.len() ==> Some((#[trigger] configs@[j]).number) != wanted,
        },
        !by_number ==> match found {
            Some(i) => i < configs@.len() && configs@[i as int].active && forall|j: int|
                0 <= j < i ==> !(#[trigger] configs@[j]).active,
            None => forall|j: int| 0 <= j < configs@.len() ==> !(#[trigger] configs@[j]).active,
        },
{
    let n = configs.len();
    for i in 0..n
        invariant
            n == configs@.len(),
            by_number ==> forall|j: int| 0 <= j < i ==> Some((#[trigger] configs@[j]).number) != wanted,
            !by_number ==> forall|j: int| 0 <= j < i ==> !(#[trigger] configs@[j]).active,
    {
        let hit = if by_number {
            match wanted {
                Some(w) => configs[i].number == w,
                None => false,
            }
        } else {
            configs[i].active
        };
        if hit {
            return Some(i);
        }
    }
    None
}

/// The position of the configuration to show.
pub fn shown_config(configs: &Vec<Configuration>, wanted: Option<u8>) -> (index: Option<usize>)
    ensures
        match index {
            Some(i) => shown_config_of(configs@, wanted) == Some(i as int),
            None => shown_config_of(configs@, wanted) is None,
        },
{
    match first_where_config(configs, wanted, true) {
        Some(i) => {
            proof {
                let w = choose|w: int| 0 <= w < configs@.len() && Some((#[trigger] configs@[w]).number) == wanted
                    && forall|j: int| 0 <= j < w ==> Some((#[trigger] configs@[j]).number) != wanted;
                if w < i {
                    assert(Some(configs@[w].number) != wanted);
                }
                if i < w {
                    assert(Some(configs@[i as int].number) != wanted);
                }
            }
            return Some(i);
        },
        None => {},
    }
    match first_where_config(configs, wanted, false) {
        Some(i) => {
            proof {
                let w = choose|w: int| 0 <= w < configs@.len() && (#[trigger] configs@[w]).active && forall|j: int|
                    0 <= j < w ==> !(#[trigger] configs@[j]).active;
                if w < i {
                    assert(configs@[w].active);
                }
                if i < w {
                    assert(!configs@[i as int].active);
                }
            }
            return Some(i);
        },
        None => {},
    }
    if configs.len() > 0 {
        Some(0)
    } else {
        None
    }
}

/// The alternate setting shown for an interface, among the positions of
/// its alternate settings: the one the user chose, else the active one,
/// else the first.
pub open spec fn shown_alternative_of(ifs: Seq<Interface>, variants: Seq<usize>, wanted: Option<u8>) -> int {
    if exists|k: int| 0 <= k < variants.len() && Some(ifs[(#[trigger] variants[k]) as int].alt_setting) == wanted {
        variants[choose|k: int|
            0 <= k < variants.len() && Some(ifs[(#[trigger] variants[k]) as int].alt_setting) == wanted
                && forall|j: int| 0 <= j < k ==> Some(ifs[(#[trigger] variants[j]) as int].alt_setting) != wanted] as int
    } else if exists|k: int| 0 <= k < variants.len() && ifs[(#[trigger] variants[k]) as int].active {
        variants[choose|k: int|
            0 <= k < variants.len() && ifs[(#[trigger] variants[k]) as int].active && forall|j: int|
                0 <= j < k ==> !ifs[(#[trigger] variants[j]) as int].active] as int
    } else {
        variants[0] as int
    }
}

/// The position of the alternate setting to show.
pub fn shown_alternative(ifs: &Vec<Interface>, variants: &Vec<usize>, wanted: Option<u8>) -> (index: usize)
    requires
        variants@.len() > 0,
        forall|k: int| 0 <= k < variants@.len() ==> (#[trigger] variants@[k]) < ifs@.len(),
    ensures
        index as int == shown_alternative_of(ifs@, variants@, wanted),
{
    let n = variants.len();
    for k in 0..n
        invariant
            n == variants@.len(),
            forall|k2: int| 0 <= k2 < n ==> (#[trigger] variants@[k2]) < ifs@.len(),
            forall|j: int| 0 <= j < k ==> Some(ifs@[(#[trigger] variants@[j]) as int].alt_setting) != wanted,
    {
        let candidate = variants[k];
        let hit = match wanted {
            Some(w) => ifs[candidate].alt_setting == w,
            None => false,
        };
        if hit {
            proof {
                let w = choose|w: int|
                    0 <= w < variants@.len() && Some(ifs@[(#[trigger] variants@[w]) as int].alt_setting) == wanted
                        && forall|j: int| 0 <= j < w ==> Some(ifs@[(#[trigger] variants@[j]) as int].alt_setting) != wanted;
                if w < k {
                    assert(Some(ifs@[variants@[w] as int].alt_setting) != wanted);
                }
                if k < w {
                    assert(Some(ifs@[variants@[k as int] as int].alt_setting) != wanted);
                }
            }
            return candidate;
        }
    }
    for k in 0..n
        invariant
            n == variants@.len(),
            forall|k2: int| 0 <= k2 < n ==> (#[trigger] variants@[k2]) < ifs@.len(),
            forall|j: int| 0 <= j < n ==> Some(ifs@[(#[trigger] variants@[j]) as int].alt_setting) != wanted,
            forall|j: int| 0 <= j < k ==> !ifs@[(#[trigger] variants@[j]) as int].active,
    {
        let candidate = variants[k];
        if ifs[candidate].active {
            proof {
                let w = choose|w: int|
                    0 <= w < variants@.len() && ifs@[(#[trigger] variants@[w]) as int].active && forall|j: int|
                        0 <= j < w ==> !ifs@[(#[trigger] variants@[j]) as int].active;
                if w < k {
                    assert(ifs@[variants@[w] as int].active);
                }
                if k < w {
                    assert(!ifs@[variants@[k as int] as int].active);
                }
            }
            return candidate;
        }
    }
    variants[0]
}

} // verus!
