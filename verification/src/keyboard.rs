//! Keyboard shortcut dispatch with held-key rate limiting.
//!
//! Keys are plain numeric codes supplied by the input layer; the clock
//! is injected, so dispatch is deterministic. At most one shortcut
//! fires per call: the first registered one whose condition holds.

use vstd::prelude::*;
use crate::event::{Effect, Event, UiEvent};

verus! {

/// A key chord: a fresh key press, or a held key, optionally with a
/// modifier. Held-key shortcuts are rate limited.
#[derive(Clone, Copy, PartialEq, Eq, Structural, Debug)]
pub enum Shortcut {
    KeyPress(u32),
    KeyPressMod(Modifier, u32),
    KeyDown(u32),
    KeyDownMod(Modifier, u32),
}

#[derive(Clone, Copy, PartialEq, Eq, Structural, Debug)]
pub enum Modifier {
    Ctrl,
    Shift,
}

/// Whether key code `k` occurs in the snapshot `s`.
pub open spec fn key_in(s: Seq<u32>, k: u32) -> bool {
    exists|i: int| 0 <= i < s.len() && s[i] == k
}

/// The shortcut registered at slot `i`.
pub open spec fn key_at(entries: Seq<(Shortcut, Effect)>, i: int) -> Shortcut {
    entries[i].0
}

/// No two slots bind the same shortcut.
pub open spec fn keys_distinct(entries: Seq<(Shortcut, Effect)>) -> bool {
    forall|i: int, j: int|
        0 <= i < j < entries.len() ==> #[trigger] key_at(entries, i) != #[trigger] key_at(
            entries,
            j,
        )
}

/// How long a held key must rest between two firings, in milliseconds.
pub const KEYDOWN_INTERVAL_MS: u64 = 100;

/// Maps shortcuts to the effects they emit; remembers when a shortcut
/// last fired, to rate-limit held keys.
#[derive(Debug)]
pub struct KeyboardManager {
    shortcuts: Vec<(Shortcut, Effect)>,
    last_keydown: Option<u64>,
}

impl KeyboardManager {
    pub closed spec fn entries(self) -> Seq<(Shortcut, Effect)> {
        self.shortcuts@
    }

    pub closed spec fn last_spec(self) -> Option<u64> {
        self.last_keydown
    }

    /// Each shortcut is registered at most once.
    pub open spec fn wf(self) -> bool {
        keys_distinct(self.entries())
    }

    /// Whether enough time has passed since a held-key shortcut last
    /// fired.
    pub open spec fn allow_keydown_spec(self, now_ms: int) -> bool {
        match self.last_spec() {
            Some(t) => now_ms - t > KEYDOWN_INTERVAL_MS,
            _ => true,
        }
    }

    /// Whether one shortcut fires under the given input snapshot.
    pub open spec fn triggers(
        sc: Shortcut,
        pressed: Seq<u32>,
        down: Seq<u32>,
        ctrl: bool,
        shift: bool,
        allow: bool,
    ) -> bool {
        match sc {
            Shortcut::KeyPress(k) => key_in(pressed, k),
            Shortcut::KeyPressMod(m, k) => (m matches Modifier::Ctrl ==> ctrl) && (
            m matches Modifier::Shift ==> shift) && key_in(pressed, k),
            Shortcut::KeyDown(k) => key_in(down, k) && allow,
            Shortcut::KeyDownMod(m, k) => (m matches Modifier::Ctrl ==> ctrl) && (
            m matches Modifier::Shift ==> shift) && key_in(down, k) && allow,
        }
    }

    pub fn new() -> (km: KeyboardManager)
        ensures
            km.wf(),
            km.entries().len() == 0,
            km.last_spec() is None,
    {
        KeyboardManager { shortcuts: Vec::new(), last_keydown: None }
    }

    pub fn allow_keydown(&self, now_ms: u64) -> (b: bool)
        ensures
            b == self.allow_keydown_spec(now_ms as int),
    {
        match self.last_keydown {
            Some(t) => now_ms > t && now_ms - t > KEYDOWN_INTERVAL_MS,
            _ => true,
        }
    }

    /// Remembers `now_ms` as the time a shortcut last fired.
    pub fn register_keydown(&mut self, now_ms: u64)
        ensures
            final(self).entries() == old(self).entries(),
            final(self).last_spec() == Some(now_ms),
    {
        self.last_keydown = Some(now_ms);
    }

    /// Binds `shortcut` to `effect`, replacing an earlier binding of
    /// the same shortcut.
    #[verifier::loop_isolation(false)]
    pub fn register(&mut self, shortcut: Shortcut, effect: Effect)
        requires
            old(self).wf(),
        ensures
            final(self).wf(),
            final(self).last_spec() == old(self).last_spec(),
            key_bound(final(self).entries(), shortcut, effect),
            forall|i: int|
                0 <= i < old(self).entries().len() && (#[trigger] old(self).entries()[i]).0
                    != shortcut ==> final(self).entries()[i] == old(self).entries()[i],
            final(self).entries().len() == old(self).entries().len()
                || final(self).entries().len() == old(self).entries().len() + 1,
    {
        let mut i: usize = 0;
        while i < self.shortcuts.len()
            invariant
                i <= self.shortcuts@.len(),
                forall|j: int| 0 <= j < i as int ==> (#[trigger] self.shortcuts@[j]).0 != shortcut,
                *self == *old(self),
            decreases self.shortcuts@.len() - i as int,
        {
            let same: bool = self.shortcuts[i].0 == shortcut;
            if same {
                self.shortcuts.set(i, (shortcut, effect));
                proof {
                    assert(self.shortcuts@[i as int] == (shortcut, effect));
                    assert(key_bound(self.shortcuts@, shortcut, effect));
                    // the replaced slot keeps its key, so the key list
                    // is unchanged
                    assert forall|a: int, b: int|
                        0 <= a < b < self.shortcuts@.len() implies #[trigger] key_at(
                        self.shortcuts@,
                        a,
                    ) != #[trigger] key_at(self.shortcuts@, b) by {
                        assert(key_at(old(self).entries(), a) != key_at(old(self).entries(), b));
                        if a != i as int {
                            assert(self.shortcuts@[a] == old(self).entries()[a]);
                        } else {
                            assert(key_at(old(self).entries(), i as int) == shortcut);
                        }
                        if b != i as int {
                            assert(self.shortcuts@[b] == old(self).entries()[b]);
                        } else {
                            assert(key_at(old(self).entries(), i as int) == shortcut);
                        }
                    }
                }
                return ;
            }
            i = i + 1;
        }
        self.shortcuts.push((shortcut, effect));
        proof {
            assert(self.shortcuts@[self.shortcuts@.len() - 1] == (shortcut, effect));
            assert(key_bound(self.shortcuts@, shortcut, effect));
            assert forall|a: int, b: int|
                0 <= a < b < self.shortcuts@.len() implies #[trigger] key_at(self.shortcuts@, a)
                != #[trigger] key_at(self.shortcuts@, b) by {
                if b == self.shortcuts@.len() - 1 {
                    assert(self.shortcuts@[a] == old(self).entries()[a]);
                    assert(key_at(self.shortcuts@, a) != shortcut);
                } else {
                    assert(self.shortcuts@[a] == old(self).entries()[a]);
                    assert(self.shortcuts@[b] == old(self).entries()[b]);
                    assert(key_at(old(self).entries(), a) != key_at(old(self).entries(), b));
                }
            }
        }
    }

    pub fn register_keypress_event(&mut self, key: u32, event: Event)
        requires
            old(self).wf(),
        ensures
            final(self).wf(),
            final(self).last_spec() == old(self).last_spec(),
            key_bound(final(self).entries(), Shortcut::KeyPress(key), Effect::Event(event)),
    {
        self.register(Shortcut::KeyPress(key), Effect::Event(event));
    }

    pub fn register_keydown_event(&mut self, key: u32, event: Event)
        requires
            old(self).wf(),
        ensures
            final(self).wf(),
            final(self).last_spec() == old(self).last_spec(),
            key_bound(final(self).entries(), Shortcut::KeyDown(key), Effect::Event(event)),
    {
        self.register(Shortcut::KeyDown(key), Effect::Event(event));
    }

    pub fn register_keypress_mod_event(&mut self, modifier: Modifier, key: u32, event: Event)
        requires
            old(self).wf(),
        ensures
            final(self).wf(),
            final(self).last_spec() == old(self).last_spec(),
            key_bound(
                final(self).entries(),
                Shortcut::KeyPressMod(modifier, key),
                Effect::Event(event),
            ),
    {
        self.register(Shortcut::KeyPressMod(modifier, key), Effect::Event(event));
    }

    pub fn register_keydown_mod_event(&mut self, modifier: Modifier, key: u32, event: Event)
        requires
            old(self).wf(),
        ensures
            final(self).wf(),
            final(self).last_spec() == old(self).last_spec(),
            key_bound(
                final(self).entries(),
                Shortcut::KeyDownMod(modifier, key),
                Effect::Event(event),
            ),
    {
        self.register(Shortcut::KeyDownMod(modifier, key), Effect::Event(event));
    }

    pub fn register_keypress_ui_event(&mut self, key: u32, event: UiEvent)
        requires
            old(self).wf(),
        ensures
            final(self).wf(),
            final(self).last_spec() == old(self).last_spec(),
            key_bound(final(self).entries(), Shortcut::KeyPress(key), Effect::UiEvent(event)),
    {
        self.register(Shortcut::KeyPress(key), Effect::UiEvent(event));
    }

    pub fn register_keydown_ui_event(&mut self, key: u32, event: UiEvent)
        requires
            old(self).wf(),
        ensures
            final(self).wf(),
            final(self).last_spec() == old(self).last_spec(),
            key_bound(final(self).entries(), Shortcut::KeyDown(key), Effect::UiEvent(event)),
    {
        self.register(Shortcut::KeyDown(key), Effect::UiEvent(event));
    }

    /// Examines the input snapshot and fires the first registered
    /// shortcut whose condition holds, if any; a firing stamps the
    /// held-key clock.
    #[verifier::loop_isolation(false)]
    pub fn process(
        &mut self,
        pressed: &Vec<u32>,
        down: &Vec<u32>,
        ctrl: bool,
        shift: bool,
        now_ms: u64,
    ) -> (r: Option<Effect>)
        ensures
            final(self).entries() == old(self).entries(),
            ({
                let allow = old(self).allow_keydown_spec(now_ms as int);
                match r {
                    Some(e) => {
                        &&& exists|k: int|
                            0 <= k < old(self).entries().len() && KeyboardManager::triggers(
                                (#[trigger] old(self).entries()[k]).0,
                                pressed@,
                                down@,
                                ctrl,
                                shift,
                                allow,
                            ) && e == old(self).entries()[k].1 && (forall|j: int|
                                0 <= j < k ==> !KeyboardManager::triggers(
                                    (#[trigger] old(self).entries()[j]).0,
                                    pressed@,
                                    down@,
                                    ctrl,
                                    shift,
                                    allow,
                                ))
                        &&& final(self).last_spec() == Some(now_ms)
                    },
                    _ => {
                        &&& forall|k: int|
                            0 <= k < old(self).entries().len() ==> !KeyboardManager::triggers(
                                (#[trigger] old(self).entries()[k]).0,
                                pressed@,
                                down@,
                                ctrl,
                                shift,
                                allow,
                            )
                        &&& final(self).last_spec() == old(self).last_spec()
                    },
                }
            }),
    {
        let allow: bool = self.allow_keydown(now_ms);
        let mut k: usize = 0;
        while k < self.shortcuts.len()
            invariant
                k <= self.shortcuts@.len(),
                allow == old(self).allow_keydown_spec(now_ms as int),
                forall|j: int|
                    0 <= j < k as int ==> !KeyboardManager::triggers(
                        (#[trigger] self.shortcuts@[j]).0,
                        pressed@,
                        down@,
                        ctrl,
                        shift,
                        allow,
                    ),
                *self == *old(self),
            decreases self.shortcuts@.len() - k as int,
        {
            let sc: Shortcut = self.shortcuts[k].0;
            let fire: bool = match sc {
                Shortcut::KeyPress(key) => key_listed(pressed, key),
                Shortcut::KeyPressMod(m, key) => {
                    let held: bool = match m {
                        Modifier::Ctrl => ctrl,
                        Modifier::Shift => shift,
                    };
                    held && key_listed(pressed, key)
                },
                Shortcut::KeyDown(key) => key_listed(down, key) && allow,
                Shortcut::KeyDownMod(m, key) => {
                    let held: bool = match m {
                        Modifier::Ctrl => ctrl,
                        Modifier::Shift => shift,
                    };
                    held && key_listed(down, key) && allow
                },
            };
            if fire {
                let effect: Effect = self.shortcuts[k].1;
                proof {
                    assert((old(self).entries()[k as int]).0 == sc);
                    assert(KeyboardManager::triggers(
                        (old(self).entries()[k as int]).0,
                        pressed@,
                        down@,
                        ctrl,
                        shift,
                        allow,
                    ));
                    assert(effect == (old(self).entries()[k as int]).1);
                }
                self.last_keydown = Some(now_ms);
                return Some(effect);
            }
            k = k + 1;
        }
        None
    }
}

/// Whether `entries` binds `shortcut` to `effect` at some slot.
pub open spec fn key_bound(
    entries: Seq<(Shortcut, Effect)>,
    shortcut: Shortcut,
    effect: Effect,
) -> bool {
    exists|i: int| 0 <= i < entries.len() && entries[i] == (shortcut, effect)
}

/// Linear scan for a key code.
fn key_listed(keys: &Vec<u32>, k: u32) -> (b: bool)
    ensures
        b == key_in(keys@, k),
{
    let mut i: usize = 0;
    while i < keys.len()
        invariant
            i <= keys@.len(),
            forall|j: int| 0 <= j < i as int ==> keys@[j] != k,
        decreases keys@.len() - i as int,
    {
        if keys[i] == k {
            return true;
        }
        i = i + 1;
    }
    proof {
        assert(!key_in(keys@, k)) by {
            if key_in(keys@, k) {
                let j = choose|j: int| 0 <= j < keys@.len() && keys@[j] == k;
                assert(keys@[j] != k);
            }
        }
    }
    false
}

} // verus!
