//! Plugin bookkeeping: the manifests found in the plugins directory, which
//! plugins are loaded and which of them are enabled.
use vstd::prelude::*;

use crate::path::VaultPath;
use crate::text::{lemma_strings_view_push, strings_view};
use crate::webdav::contains_string;

verus! {

broadcast use lemma_strings_view_push;

/// Metadata declared in a plugin's `plugin.toml`.
pub struct PluginManifest {
    pub name: String,
    pub version: String,
    pub description: Option<String>,
    pub author: Option<String>,
    /// The WASM file name relative to the manifest; empty when the manifest
    /// names none.
    pub wasm: String,
}

/// A loaded plugin instance.
pub struct LoadedPlugin {
    pub manifest: PluginManifest,
    /// Directory this plugin was loaded from (used for removal).
    pub dir: VaultPath,
    /// Whether the plugin is enabled. Disabled plugins are still listed in the
    /// manager but their hooks are not fired. Persisted in Config.
    pub enabled: bool,
}

/// A command registered by a plugin.
pub struct PluginCommand {
    pub name: String,
    pub description: String,
}

/// Hosts all active plugins. Plugins are loaded from a plugins directory.
pub struct PluginHost {
    pub plugins: Vec<LoadedPlugin>,
}

/// The index of the first plugin called `name`, if any.
pub open spec fn first_named(ps: Seq<LoadedPlugin>, name: Seq<char>) -> Option<int> {
    if exists|i: int| 0 <= i < ps.len() && ps[i].manifest.name@ == name {
        Some(
            choose|i: int|
                0 <= i < ps.len() && ps[i].manifest.name@ == name && forall|k: int|
                    0 <= k < i ==> ps[k].manifest.name@ != name,
        )
    } else {
        None
    }
}

/// `ps` with the plugin at `i` enabled or disabled.
pub open spec fn with_enabled(ps: Seq<LoadedPlugin>, i: int, enabled: bool) -> Seq<LoadedPlugin> {
    ps.update(i, LoadedPlugin { enabled, ..ps[i] })
}

/// Whether each plugin is enabled exactly when its name is not in
/// `disabled`.
pub open spec fn consistent_with(ps: Seq<LoadedPlugin>, disabled: Seq<Seq<char>>) -> bool {
    forall|i: int| 0 <= i < ps.len() ==> (#[trigger] ps[i]).enabled == !disabled.contains(
        ps[i].manifest.name@,
    )
}

/// Whether no two plugins share a name.
pub open spec fn names_distinct(ps: Seq<LoadedPlugin>) -> bool {
    forall|i: int, j: int|
        0 <= i < j < ps.len() ==> (#[trigger] ps[i]).manifest.name@ != (#[trigger] ps[j]).manifest.name@
}

/// The index of the first plugin called `name`.
fn position_of(ps: &Vec<LoadedPlugin>, name: &String) -> (r: Option<usize>)
    ensures
        match r {
            Some(i) => first_named(ps@, name@) == Some(i as int) && i < ps@.len(),
            None => first_named(ps@, name@) is None,
        },
{
    let mut i: usize = 0;
    while i < ps.len()
        invariant
            i <= ps@.len(),
            forall|k: int| 0 <= k < i ==> ps@[k].manifest.name@ != name@,
        decreases ps@.len() - i,
    {
        if ps[i].manifest.name == *name {
            let ghost w = choose|j: int|
                0 <= j < ps@.len() && ps@[j].manifest.name@ == name@ && forall|k: int|
                    0 <= k < j ==> ps@[k].manifest.name@ != name@;
            assert(0 <= i < ps@.len() && ps@[i as int].manifest.name@ == name@ && forall|k: int|
                0 <= k < i ==> ps@[k].manifest.name@ != name@);
            proof {
                if w < i {
                } else if w > i {
                    assert(ps@[i as int].manifest.name@ != name@);
                }
            }
            return Some(i);
        }
        i = i + 1;
    }
    None
}

impl PluginHost {
    /// A host with no plugins.
    pub fn new() -> (h: Self)
        ensures
            h.plugins@.len() == 0,
    {
        PluginHost { plugins: Vec::new() }
    }

    /// Add the plugin described by `manifest`, found in `plugin_dir`; it
    /// starts disabled when its name is listed in `disabled`.
    pub fn load_plugin(&mut self, manifest: PluginManifest, plugin_dir: VaultPath, disabled: &Vec<String>)
        ensures
            final(self).plugins@.len() == old(self).plugins@.len() + 1,
            final(self).plugins@.drop_last() == old(self).plugins@,
            final(self).plugins@.last().manifest == manifest,
            final(self).plugins@.last().dir == plugin_dir,
            final(self).plugins@.last().enabled == !strings_view(disabled@).contains(manifest.name@),
    {
        let enabled = !contains_string(disabled, &manifest.name);
        self.plugins.push(LoadedPlugin { manifest, dir: plugin_dir, enabled });
        assert(self.plugins@.drop_last() =~= old(self).plugins@);
    }

    /// Clear all plugins and load those found by a fresh scan, in the order
    /// found.
    pub fn reload(&mut self, found: Vec<(PluginManifest, VaultPath)>, disabled: &Vec<String>)
        ensures
            final(self).plugins@.len() == found@.len(),
            forall|i: int|
                0 <= i < found@.len() ==> {
                    &&& (#[trigger] final(self).plugins@[i]).manifest == found@[i].0
                    &&& final(self).plugins@[i].dir == found@[i].1
                    &&& final(self).plugins@[i].enabled == !strings_view(disabled@).contains(
                        found@[i].0.name@,
                    )
                },
    {
        self.plugins.clear();
        let mut found = found;
        let ghost all = found@;
        let n = found.len();
        let mut i: usize = 0;
        while found.len() > 0
            invariant
                n == all.len(),
                i + found@.len() == all.len(),
                found@ == all.skip(i as int),
                self.plugins@.len() == i,
                forall|k: int|
                    0 <= k < i ==> {
                        &&& (#[trigger] self.plugins@[k]).manifest == all[k].0
                        &&& self.plugins@[k].dir == all[k].1
                        &&& self.plugins@[k].enabled == !strings_view(disabled@).contains(
                            all[k].0.name@,
                        )
                    },
            decreases found@.len(),
        {
            let ghost before = self.plugins@;
            assert(forall|k: int|
                0 <= k < i ==> {
                    &&& (#[trigger] before[k]).manifest == all[k].0
                    &&& before[k].dir == all[k].1
                    &&& before[k].enabled == !strings_view(disabled@).contains(all[k].0.name@)
                });
            assert(found@[0] == all[i as int]);
            let item = found.remove(0);
            assert(item == all[i as int]);
            let (manifest, dir) = item;
            assert(found@ =~= all.skip(i + 1));
            self.load_plugin(manifest, dir, disabled);
            assert forall|k: int| 0 <= k < i implies #[trigger] self.plugins@[k] == before[k] by {
                assert(self.plugins@.drop_last()[k] == self.plugins@[k]);
            }
            assert(self.plugins@[i as int] == self.plugins@.last());
            i = i + 1;
        }
    }
}


/// Whether a string is not `s`.
pub open spec fn differs_str(s: Seq<char>) -> spec_fn(Seq<char>) -> bool {
    |x: Seq<char>| x != s
}

/// The disabled list after toggling `name`: removed (every occurrence)
/// when listed, appended otherwise.
pub open spec fn toggled_disabled(disabled: Seq<Seq<char>>, name: Seq<char>) -> Seq<Seq<char>> {
    if disabled.contains(name) {
        disabled.filter(differs_str(name))
    } else {
        disabled.push(name)
    }
}

/// The strings of `v` other than `s`, in order.
pub fn without_string(v: &Vec<String>, s: &String) -> (r: Vec<String>)
    ensures
        strings_view(r@) == strings_view(v@).filter(differs_str(s@)),
{
    let mut out: Vec<String> = Vec::new();
    let mut i: usize = 0;
    while i < v.len()
        invariant
            i <= v@.len(),
            strings_view(out@) == strings_view(v@.take(i as int)).filter(differs_str(s@)),
        decreases v@.len() - i,
    {
        let ghost prev = strings_view(v@.take(i as int));
        assert(strings_view(v@.take(i + 1)) =~= prev.push(v@[i as int]@));
        assert(strings_view(v@.take(i + 1)).drop_last() =~= prev);
        proof {
            reveal(Seq::filter);
        }
        if v[i] != *s {
            out.push(v[i].clone());
        }
        i = i + 1;
    }
    assert(v@.take(v@.len() as int) =~= v@);
    out
}

/// A `String` with the characters of `s`.
fn owned(s: &str) -> (r: String)
    ensures
        r@ == s@,
{
    crate::text::string_from_chars(crate::text::chars_of(s).as_slice())
}

impl PluginHost {
    /// Take the first plugin called `name` out of the list and return it
    /// (its directory is then deleted by the caller); none when there is no
    /// such plugin.
    pub fn remove_plugin(&mut self, name: &str) -> (r: Option<LoadedPlugin>)
        ensures
            match first_named(old(self).plugins@, name@) {
                Some(i) => r == Some(old(self).plugins@[i]) && final(self).plugins@ == old(
                    self,
                ).plugins@.remove(i),
                None => r is None && final(self).plugins@ == old(self).plugins@,
            },
    {
        let n = owned(name);
        match position_of(&self.plugins, &n) {
            None => None,
            Some(idx) => Some(self.plugins.remove(idx)),
        }
    }

    /// Enable or disable the first plugin called `name`; nothing changes
    /// when there is none.
    pub fn set_enabled(&mut self, name: &str, enabled: bool)
        ensures
            match first_named(old(self).plugins@, name@) {
                Some(i) => final(self).plugins@ == with_enabled(old(self).plugins@, i, enabled),
                None => final(self).plugins@ == old(self).plugins@,
            },
    {
        let n = owned(name);
        match position_of(&self.plugins, &n) {
            None => {},
            Some(idx) => {
                let mut p = self.plugins.remove(idx);
                p.enabled = enabled;
                self.plugins.insert(idx, p);
                assert(self.plugins@ =~= with_enabled(old(self).plugins@, idx as int, enabled));
            },
        }
    }

    /// Fire `on_note_open` for all enabled plugins. Plugins register no
    /// hooks yet, so nothing is called.
    pub fn on_note_open(&self, path: &str) {
        let mut i: usize = 0;
        while i < self.plugins.len()
            invariant
                i <= self.plugins@.len(),
            decreases self.plugins@.len() - i,
        {
            i = i + 1;
        }
    }

    /// Fire `on_note_save` for all enabled plugins. Returns (possibly
    /// modified) content; plugins register no hooks yet, so it is the
    /// content given.
    pub fn on_note_save(&self, path: &str, content: String) -> (r: String)
        ensures
            r == content,
    {
        let result = content;
        let mut i: usize = 0;
        while i < self.plugins.len()
            invariant
                i <= self.plugins@.len(),
            decreases self.plugins@.len() - i,
        {
            i = i + 1;
        }
        result
    }

    /// Return all commands registered by enabled plugins: none yet.
    pub fn commands(&self) -> (r: Vec<PluginCommand>)
        ensures
            r@.len() == 0,
    {
        Vec::new()
    }
}

impl Default for PluginHost {
    fn default() -> (h: Self)
        ensures
            h.plugins@.len() == 0,
    {
        Self::new()
    }
}

/// Toggle plugin `name` between enabled and disabled: update the disabled
/// list and the loaded plugin. Returns whether the plugin is now enabled.
pub fn toggle_plugin(disabled: &mut Vec<String>, host: &mut PluginHost, name: &str) -> (now_enabled:
    bool)
    ensures
        now_enabled == strings_view(old(disabled)@).contains(name@),
        strings_view(final(disabled)@) == toggled_disabled(strings_view(old(disabled)@), name@),
        match first_named(old(host).plugins@, name@) {
            Some(i) => final(host).plugins@ == with_enabled(old(host).plugins@, i, now_enabled),
            None => final(host).plugins@ == old(host).plugins@,
        },
{
    broadcast use lemma_strings_view_push;

    let n = owned(name);
    if contains_string(disabled, &n) {
        let kept = without_string(disabled, &n);
        *disabled = kept;
        host.set_enabled(name, true);
        true
    } else {
        disabled.push(n);
        host.set_enabled(name, false);
        false
    }
}

/// Drop `name` from the disabled list (every occurrence).
pub fn forget_disabled(disabled: &mut Vec<String>, name: &str)
    ensures
        strings_view(final(disabled)@) == strings_view(old(disabled)@).filter(differs_str(name@)),
{
    let n = owned(name);
    let kept = without_string(disabled, &n);
    *disabled = kept;
}

} // verus!

verus! {

/// Filtering out a value that does not occur leaves a sequence unchanged.
proof fn lemma_filter_absent(d: Seq<Seq<char>>, name: Seq<char>)
    requires
        !d.contains(name),
    ensures
        d.filter(differs_str(name)) == d,
    decreases d.len(),
{
    reveal(Seq::filter);
    if d.len() > 0 {
        assert(!d.drop_last().contains(name)) by {
            if d.drop_last().contains(name) {
                let k = choose|k: int| 0 <= k < d.drop_last().len() && d.drop_last()[k] == name;
                assert(d[k] == name);
            }
        }
        lemma_filter_absent(d.drop_last(), name);
        assert(d.last() != name) by {
            assert(d[d.len() - 1] == d.last());
        }
        assert(d.drop_last().push(d.last()) =~= d);
    }
}

/// Toggling a plugin that is not disabled twice leaves the disabled list as
/// it was.
pub proof fn law_toggle_twice_restores(disabled: Seq<Seq<char>>, name: Seq<char>)
    requires
        !disabled.contains(name),
    ensures
        toggled_disabled(toggled_disabled(disabled, name), name) == disabled,
{
    let once = disabled.push(name);
    assert(once.contains(name)) by {
        assert(once[disabled.len() as int] == name);
    }
    reveal(Seq::filter);
    assert(once.drop_last() =~= disabled);
    lemma_filter_absent(disabled, name);
}

proof fn lemma_toggle_members(d: Seq<Seq<char>>, name: Seq<char>, x: Seq<char>)
    ensures
        toggled_disabled(d, name).contains(name) == !d.contains(name),
        x != name ==> toggled_disabled(d, name).contains(x) == d.contains(x),
{
    broadcast use vstd::seq_lib::group_filter_ensures;

    if d.contains(name) {
        if x != name && d.contains(x) {
            let k = choose|k: int| 0 <= k < d.len() && d[k] == x;
            d.lemma_filter_contains(differs_str(name), k);
        }
        if toggled_disabled(d, name).contains(x) {
            d.lemma_filter_contains_rev(differs_str(name), x);
        }
        if toggled_disabled(d, name).contains(name) {
            d.lemma_filter_contains_rev(differs_str(name), name);
        }
    } else {
        let p = d.push(name);
        assert(p[d.len() as int] == name);
        if d.contains(x) {
            let k = choose|k: int| 0 <= k < d.len() && d[k] == x;
            assert(p[k] == x);
        }
        if x != name && p.contains(x) {
            let k = choose|k: int| 0 <= k < p.len() && p[k] == x;
            assert(d[k] == x);
        }
    }
}

/// Toggling flips whether `name` is disabled and leaves every other name as
/// it was, so toggling any name twice gives back the same set of disabled
/// names (the list itself comes back as it was when `name` was not in it).
pub proof fn law_toggle_flips_membership(disabled: Seq<Seq<char>>, name: Seq<char>)
    ensures
        toggled_disabled(disabled, name).contains(name) == !disabled.contains(name),
        forall|x: Seq<char>|
            x != name ==> (#[trigger] toggled_disabled(disabled, name).contains(x)
                == disabled.contains(x)),
        forall|x: Seq<char>|
            #[trigger] toggled_disabled(toggled_disabled(disabled, name), name).contains(x)
                == disabled.contains(x),
{
    let once = toggled_disabled(disabled, name);
    lemma_toggle_members(disabled, name, name);
    lemma_toggle_members(once, name, name);
    assert forall|x: Seq<char>|
        x != name implies #[trigger] toggled_disabled(disabled, name).contains(x)
        == disabled.contains(x) by {
        lemma_toggle_members(disabled, name, x);
    }
    assert forall|x: Seq<char>| #[trigger]
        toggled_disabled(toggled_disabled(disabled, name), name).contains(x) == disabled.contains(
            x,
        ) by {
        lemma_toggle_members(disabled, name, x);
        lemma_toggle_members(once, name, x);
    }
}

/// Toggling keeps every plugin's enabled flag in step with the disabled
/// list, when plugin names are distinct.
pub proof fn law_toggle_keeps_consistency(
    ps: Seq<LoadedPlugin>,
    disabled: Seq<Seq<char>>,
    name: Seq<char>,
)
    requires
        consistent_with(ps, disabled),
        names_distinct(ps),
    ensures
        consistent_with(
            match first_named(ps, name) {
                Some(i) => with_enabled(ps, i, disabled.contains(name)),
                None => ps,
            },
            toggled_disabled(disabled, name),
        ),
{
    broadcast use vstd::seq_lib::group_filter_ensures;

    let after = match first_named(ps, name) {
        Some(i) => with_enabled(ps, i, disabled.contains(name)),
        None => ps,
    };
    let nd = toggled_disabled(disabled, name);
    assert forall|x: Seq<char>| x != name implies nd.contains(x) == disabled.contains(x) by {
        if disabled.contains(name) {
            if disabled.contains(x) {
                let k = choose|k: int| 0 <= k < disabled.len() && disabled[k] == x;
                disabled.lemma_filter_contains(differs_str(name), k);
            }
            if nd.contains(x) {
                disabled.lemma_filter_contains_rev(differs_str(name), x);
            }
        } else {
            if disabled.contains(x) {
                let k = choose|k: int| 0 <= k < disabled.len() && disabled[k] == x;
                assert(nd[k] == x);
            }
            if nd.contains(x) {
                let k = choose|k: int| 0 <= k < nd.len() && nd[k] == x;
                assert(disabled[k] == x);
            }
        }
    }
    assert(nd.contains(name) == !disabled.contains(name)) by {
        if disabled.contains(name) {
            if nd.contains(name) {
                let k = choose|k: int| 0 <= k < nd.len() && nd[k] == name;
                disabled.lemma_filter_pred(differs_str(name), k);
            }
        } else {
            assert(nd[disabled.len() as int] == name);
        }
    }
    assert forall|i: int| 0 <= i < after.len() implies (#[trigger] after[i]).enabled == !nd.contains(
        after[i].manifest.name@,
    ) by {
        assert(ps[i].manifest == after[i].manifest);
        match first_named(ps, name) {
            Some(j) => {
                if i != j {
                    assert(after[i] == ps[i]);
                    if ps[i].manifest.name@ == name {
                        assert(ps[j].manifest.name@ == name);
                        if i < j {
                            assert(ps[i].manifest.name@ != ps[j].manifest.name@);
                        } else {
                            assert(ps[j].manifest.name@ != ps[i].manifest.name@);
                        }
                    }
                }
            },
            None => {
                assert(ps[i].manifest.name@ != name);
            },
        }
    }
}

/// What a plugin list becomes when the first plugin called `name` is removed.
pub open spec fn without_plugin(ps: Seq<LoadedPlugin>, name: Seq<char>) -> Seq<LoadedPlugin> {
    match first_named(ps, name) {
        Some(i) => ps.remove(i),
        None => ps,
    }
}

/// Removing an addon and forgetting its name: when plugin names are
/// distinct, no plugin of that name is left, the names stay distinct, and
/// every remaining plugin's enabled flag stays in step with the disabled
/// list.
pub proof fn law_remove_keeps_consistency(
    ps: Seq<LoadedPlugin>,
    disabled: Seq<Seq<char>>,
    name: Seq<char>,
)
    requires
        consistent_with(ps, disabled),
        names_distinct(ps),
    ensures
        consistent_with(without_plugin(ps, name), disabled.filter(differs_str(name))),
        names_distinct(without_plugin(ps, name)),
        forall|j: int|
            0 <= j < without_plugin(ps, name).len() ==> (#[trigger] without_plugin(
                ps,
                name,
            )[j]).manifest.name@ != name,
{
    broadcast use vstd::seq_lib::group_filter_ensures;

    let after = without_plugin(ps, name);
    let nd = disabled.filter(differs_str(name));
    assert forall|x: Seq<char>| x != name implies nd.contains(x) == disabled.contains(x) by {
        if disabled.contains(x) {
            let k = choose|k: int| 0 <= k < disabled.len() && disabled[k] == x;
            disabled.lemma_filter_contains(differs_str(name), k);
        }
        if nd.contains(x) {
            disabled.lemma_filter_contains_rev(differs_str(name), x);
        }
    }
    match first_named(ps, name) {
        Some(i) => {
            assert(0 <= i < ps.len() && ps[i].manifest.name@ == name);
            assert forall|j: int| 0 <= j < after.len() implies (#[trigger] after[j]).manifest.name@
                != name && after[j].enabled == !nd.contains(after[j].manifest.name@) by {
                if j < i {
                    assert(after[j] == ps[j]);
                } else {
                    assert(after[j] == ps[j + 1]);
                }
            }
            assert forall|a: int, b: int|
                0 <= a < b < after.len() implies (#[trigger] after[a]).manifest.name@ != (
            #[trigger] after[b]).manifest.name@ by {
                let a0 = if a < i { a } else { a + 1 };
                let b0 = if b < i { b } else { b + 1 };
                assert(after[a] == ps[a0]);
                assert(after[b] == ps[b0]);
            }
        },
        None => {
            assert forall|j: int| 0 <= j < after.len() implies (#[trigger] after[j]).manifest.name@
                != name && after[j].enabled == !nd.contains(after[j].manifest.name@) by {
                assert(after[j] == ps[j]);
            }
        },
    }
}

} // verus!
