use vstd::prelude::*;
use crate::config::Config;
use crate::engine::EngineCommand;

verus! {

/// The set of key names in `keys`.
pub open spec fn key_set(keys: Seq<String>) -> Set<Seq<char>> {
    Set::new(|name: Seq<char>| exists|i: int| 0 <= i < keys.len() && #[trigger] keys[i]@ == name)
}

/// Tracks the keys held down and tells which hotkey, if any, they make up.
pub struct HotkeyMatcher {
    /// The keys held down.
    pub pressed: Vec<String>,
    pub start_keys: Vec<String>,
    pub pause_keys: Vec<String>,
    pub stop_keys: Vec<String>,
}

/// The command that the keys `held` give: the command whose hotkey is not
/// empty and is exactly the set `held` (a superset gives nothing), `Stop` before
/// `Pause` before `Start`.
pub open spec fn hotkey_command(m: HotkeyMatcher, held: Set<Seq<char>>) -> Option<EngineCommand> {
    if m.stop_keys@.len() > 0 && held == key_set(m.stop_keys@) {
        Some(EngineCommand::Stop)
    } else if m.pause_keys@.len() > 0 && held == key_set(m.pause_keys@) {
        Some(EngineCommand::Pause)
    } else if m.start_keys@.len() > 0 && held == key_set(m.start_keys@) {
        Some(EngineCommand::Start)
    } else {
        None
    }
}

/// `post` and `cmd` are what pressing the key `name` makes of `pre`: the key
/// is held, the hotkeys stay, and a key that was not held yet gives the command
/// of the hotkey that the held keys now make up, if any.
pub open spec fn pressed_to(
    pre: HotkeyMatcher,
    name: Seq<char>,
    post: HotkeyMatcher,
    cmd: Option<EngineCommand>,
) -> bool {
    &&& key_set(post.pressed@) == key_set(pre.pressed@).insert(name)
    &&& post.start_keys == pre.start_keys
    &&& post.pause_keys == pre.pause_keys
    &&& post.stop_keys == pre.stop_keys
    &&& cmd == (if key_set(pre.pressed@).contains(name) {
        None
    } else {
        hotkey_command(post, key_set(post.pressed@))
    })
}

/// Whether `name` is in `keys`.
fn contains_key(keys: &Vec<String>, name: &String) -> (b: bool)
    ensures
        b == key_set(keys@).contains(name@),
{
    let mut i: usize = 0;
    while i < keys.len()
        invariant
            i <= keys.len(),
            forall|j: int| 0 <= j < i ==> keys@[j]@ != name@,
        decreases keys.len() - i,
    {
        if keys[i] == *name {
            assert(key_set(keys@).contains(name@)) by {
                assert(keys@[i as int]@ == name@);
            }
            return true;
        }
        i = i + 1;
    }
    false
}

/// Whether every key in `a` is in `b`.
fn all_in(a: &Vec<String>, b: &Vec<String>) -> (r: bool)
    ensures
        r == key_set(a@).subset_of(key_set(b@)),
{
    let mut i: usize = 0;
    while i < a.len()
        invariant
            i <= a.len(),
            forall|j: int| 0 <= j < i ==> key_set(b@).contains(#[trigger] a@[j]@),
        decreases a.len() - i,
    {
        if !contains_key(b, &a[i]) {
            assert(key_set(a@).contains(a@[i as int]@));
            return false;
        }
        i = i + 1;
    }
    true
}

/// Whether `a` and `b` hold the same set of keys.
fn same_keys(a: &Vec<String>, b: &Vec<String>) -> (r: bool)
    ensures
        r == (key_set(a@) == key_set(b@)),
{
    let ab = all_in(a, b);
    let ba = all_in(b, a);
    if ab && ba {
        assert(key_set(a@) =~= key_set(b@));
        true
    } else {
        false
    }
}

impl HotkeyMatcher {
    /// A matcher for the hotkeys of `config`, with no key held down.
    pub fn new(config: Config) -> (m: Self)
        ensures
            m.pressed@.len() == 0,
            m.start_keys == config.start_hotkey,
            m.pause_keys == config.pause_hotkey,
            m.stop_keys == config.stop_hotkey,
    {
        HotkeyMatcher {
            pressed: Vec::new(),
            start_keys: config.start_hotkey,
            pause_keys: config.pause_hotkey,
            stop_keys: config.stop_hotkey,
        }
    }

    /// The key `name` goes down. A key that is already held (a repeat of the
    /// operating system) gives nothing; a new one gives the command whose
    /// hotkey the held keys now make up exactly, if any.
    pub fn press(&mut self, name: String) -> (cmd: Option<EngineCommand>)
        ensures
            key_set(final(self).pressed@) == key_set(old(self).pressed@).insert(name@),
            final(self).start_keys == old(self).start_keys,
            final(self).pause_keys == old(self).pause_keys,
            final(self).stop_keys == old(self).stop_keys,
            cmd == (if key_set(old(self).pressed@).contains(name@) {
                None
            } else {
                hotkey_command(*final(self), key_set(final(self).pressed@))
            }),
            pressed_to(*old(self), name@, *final(self), cmd),
    {
        if contains_key(&self.pressed, &name) {
            assert(key_set(self.pressed@).insert(name@) =~= key_set(self.pressed@));
            return None;
        }
        let ghost before = self.pressed@;
        self.pressed.push(name);
        proof {
            assert(key_set(self.pressed@) =~= key_set(before).insert(name@)) by {
                assert(self.pressed@[before.len() as int]@ == name@);
                assert forall|k: Seq<char>| key_set(before).contains(k) implies key_set(
                    self.pressed@,
                ).contains(k) by {
                    let i = choose|i: int| 0 <= i < before.len() && #[trigger] before[i]@ == k;
                    assert(self.pressed@[i]@ == k);
                }
                assert forall|k: Seq<char>| key_set(self.pressed@).contains(k) implies key_set(
                    before,
                ).insert(name@).contains(k) by {
                    let i = choose|i: int|
                        0 <= i < self.pressed@.len() && #[trigger] self.pressed@[i]@ == k;
                    if i < before.len() {
                        assert(before[i]@ == k);
                    }
                }
            }
        }
        if self.stop_keys.len() > 0 && same_keys(&self.pressed, &self.stop_keys) {
            Some(EngineCommand::Stop)
        } else if self.pause_keys.len() > 0 && same_keys(&self.pressed, &self.pause_keys) {
            Some(EngineCommand::Pause)
        } else if self.start_keys.len() > 0 && same_keys(&self.pressed, &self.start_keys) {
            Some(EngineCommand::Start)
        } else {
            None
        }
    }

    /// The key `name` goes up; it is no longer held.
    pub fn release(&mut self, name: &String)
        ensures
            key_set(final(self).pressed@) == key_set(old(self).pressed@).remove(name@),
            final(self).start_keys == old(self).start_keys,
            final(self).pause_keys == old(self).pause_keys,
            final(self).stop_keys == old(self).stop_keys,
    {
        let mut kept: Vec<String> = Vec::new();
        let mut i: usize = 0;
        while i < self.pressed.len()
            invariant
                i <= self.pressed.len(),
                forall|j: int| 0 <= j < kept.len() ==> (#[trigger] kept@[j])@ != name@,
                key_set(kept@) == key_set(self.pressed@.take(i as int)).remove(name@),
            decreases self.pressed.len() - i,
        {
            let ghost prev = kept@;
            if self.pressed[i] != *name {
                kept.push(self.pressed[i].clone());
            }
            proof {
                let t = self.pressed@.take(i + 1);
                assert(key_set(t) =~= key_set(self.pressed@.take(i as int)).insert(
                    self.pressed@[i as int]@,
                )) by {
                    assert forall|k: Seq<char>| key_set(t).contains(k) implies key_set(
                        self.pressed@.take(i as int),
                    ).insert(self.pressed@[i as int]@).contains(k) by {
                        let a = choose|a: int| 0 <= a < t.len() && #[trigger] t[a]@ == k;
                        if a < i {
                            assert(self.pressed@.take(i as int)[a]@ == k);
                        }
                    }
                    assert forall|k: Seq<char>|
                        key_set(self.pressed@.take(i as int)).contains(k) implies key_set(
                        t,
                    ).contains(k) by {
                        let a = choose|a: int|
                            0 <= a < i && #[trigger] self.pressed@.take(i as int)[a]@ == k;
                        assert(t[a]@ == k);
                    }
                    assert(t[i as int]@ == self.pressed@[i as int]@);
                }
                assert(key_set(kept@) =~= key_set(t).remove(name@)) by {
                    assert forall|k: Seq<char>| key_set(kept@).contains(k) implies key_set(
                        t,
                    ).remove(name@).contains(k) by {
                        let a = choose|a: int| 0 <= a < kept@.len() && #[trigger] kept@[a]@ == k;
                        if a < prev.len() {
                            assert(prev[a]@ == k);
                            assert(key_set(prev).contains(k));
                        }
                    }
                    assert forall|k: Seq<char>| key_set(t).remove(name@).contains(k) implies key_set(
                        kept@,
                    ).contains(k) by {
                        if k == self.pressed@[i as int]@ {
                            assert(kept@[kept@.len() - 1]@ == k);
                        } else {
                            assert(key_set(self.pressed@.take(i as int)).contains(k));
                            assert(key_set(prev).contains(k));
                            let a = choose|a: int| 0 <= a < prev.len() && #[trigger] prev[a]@ == k;
                            assert(kept@[a]@ == k);
                        }
                    }
                }
            }
            i = i + 1;
        }
        assert(self.pressed@.take(self.pressed@.len() as int) =~= self.pressed@);
        self.pressed = kept;
    }
}

/// Releasing a key right after pressing it, where it was not held before,
/// leaves held the keys that were held before the press: `mid` is what
/// `press` makes of `before` and `after` what `release` makes of `mid`.
pub proof fn lemma_release_undoes_press(
    before: Seq<String>,
    mid: Seq<String>,
    after: Seq<String>,
    name: Seq<char>,
)
    requires
        !key_set(before).contains(name),
        key_set(mid) == key_set(before).insert(name),
        key_set(after) == key_set(mid).remove(name),
    ensures
        key_set(after) == key_set(before),
{
    assert(key_set(before).insert(name).remove(name) =~= key_set(before));
}

/// Pressing a new key fires a hotkey whenever the keys now held are exactly
/// the keys of a hotkey that is not empty, whatever order they were pressed
/// in: `Stop` where they are the stop keys, else `Pause` where they are the
/// pause keys, else `Start` where they are the start keys; and nothing where
/// they are none of these.
pub proof fn lemma_press_fires_on_exact_match(
    pre: HotkeyMatcher,
    name: Seq<char>,
    post: HotkeyMatcher,
    cmd: Option<EngineCommand>,
)
    requires
        pressed_to(pre, name, post, cmd),
        !key_set(pre.pressed@).contains(name),
    ensures
        ({
            let held = key_set(post.pressed@);
            let is_stop = post.stop_keys@.len() > 0 && held == key_set(post.stop_keys@);
            let is_pause = post.pause_keys@.len() > 0 && held == key_set(post.pause_keys@);
            let is_start = post.start_keys@.len() > 0 && held == key_set(post.start_keys@);
            &&& held == key_set(pre.pressed@).insert(name)
            &&& is_stop ==> cmd == Some(EngineCommand::Stop)
            &&& !is_stop && is_pause ==> cmd == Some(EngineCommand::Pause)
            &&& !is_stop && !is_pause && is_start ==> cmd == Some(EngineCommand::Start)
            &&& !is_stop && !is_pause && !is_start ==> cmd == None::<EngineCommand>
        }),
{
}

/// The command of a press depends on the set of held keys only, not on the
/// order in which they were pressed: two matchers with the same hotkeys that
/// hold the same keys give the same command for the same press, and then
/// hold the same keys again.
pub proof fn lemma_press_ignores_order(
    pre1: HotkeyMatcher,
    pre2: HotkeyMatcher,
    name: Seq<char>,
    post1: HotkeyMatcher,
    cmd1: Option<EngineCommand>,
    post2: HotkeyMatcher,
    cmd2: Option<EngineCommand>,
)
    requires
        key_set(pre1.pressed@) == key_set(pre2.pressed@),
        pre1.start_keys == pre2.start_keys,
        pre1.pause_keys == pre2.pause_keys,
        pre1.stop_keys == pre2.stop_keys,
        pressed_to(pre1, name, post1, cmd1),
        pressed_to(pre2, name, post2, cmd2),
    ensures
        cmd1 == cmd2,
        key_set(post1.pressed@) == key_set(post2.pressed@),
{
}

/// A hotkey fires only on an exact match: the held keys are exactly the keys
/// of the hotkey, which is not empty.
pub proof fn lemma_command_needs_exact_match(
    m: HotkeyMatcher,
    held: Set<Seq<char>>,
    cmd: EngineCommand,
)
    requires
        hotkey_command(m, held) == Some(cmd),
    ensures
        cmd == EngineCommand::Stop ==> m.stop_keys@.len() > 0 && held == key_set(m.stop_keys@),
        cmd == EngineCommand::Pause ==> m.pause_keys@.len() > 0 && held == key_set(m.pause_keys@),
        cmd == EngineCommand::Start ==> m.start_keys@.len() > 0 && held == key_set(m.start_keys@),
{
}

} // verus!
