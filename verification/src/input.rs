//! Keyboard and window input: the set of keys held down, when the event
//! loop stops, and which camera motion a held key asks for.

use vstd::prelude::*;

verus! {

/// A keyboard key. The keys the program reacts to are named; every other
/// key is `Other`, told apart by a code of the windowing library.
#[derive(Clone, Copy, PartialEq, Eq, Structural, Debug)]
pub enum Key {
    W,
    A,
    S,
    D,
    H,
    J,
    K,
    L,
    R,
    F,
    Q,
    Escape,
    Other(u32),
}

/// Whether a key went down or up.
#[derive(Clone, Copy, PartialEq, Eq, Structural, Debug)]
pub enum KeyState {
    Pressed,
    Released,
}

/// The keys held down, in the order they went down, each at most once.
pub struct PressedKeys {
    keys: Vec<Key>,
}

/// The held keys after `k` goes down: added at the end unless already held.
pub open spec fn pressed(s: Seq<Key>, k: Key) -> Seq<Key> {
    if s.contains(k) {
        s
    } else {
        s.push(k)
    }
}

/// The held keys after `k` goes up: its first occurrence removed, if any.
pub open spec fn released(s: Seq<Key>, k: Key) -> Seq<Key> {
    s.remove_value(k)
}

/// The held keys after a key event.
pub open spec fn after_key_event(s: Seq<Key>, state: KeyState, k: Key) -> Seq<Key> {
    match state {
        KeyState::Pressed => pressed(s, k),
        KeyState::Released => released(s, k),
    }
}

impl View for PressedKeys {
    type V = Seq<Key>;

    closed spec fn view(&self) -> Seq<Key> {
        self.keys@
    }
}

proof fn lemma_remove_value(s: Seq<Key>, k: Key)
    requires
        s.no_duplicates(),
    ensures
        !released(s, k).contains(k),
        released(s, k).no_duplicates(),
        forall|x: Key| x != k ==> (released(s, k).contains(x) <==> s.contains(x)),
        s.contains(k) ==> exists|i: int|
            0 <= i < s.len() && s[i] == k && released(s, k) == s.remove(i),
        !s.contains(k) ==> released(s, k) == s,
{
    s.index_of_first_ensures(k);
    match s.index_of_first(k) {
        Some(i) => {
            let r = s.remove(i);
            s.remove_ensures(i);
            assert forall|a: int, b: int| 0 <= a < r.len() && 0 <= b < r.len() && a != b implies r[a]
                != r[b] by {
                let ia = if a < i {
                    a
                } else {
                    a + 1
                };
                let ib = if b < i {
                    b
                } else {
                    b + 1
                };
                assert(r[a] == s[ia]);
                assert(r[b] == s[ib]);
            }
            assert forall|j: int| 0 <= j < r.len() implies r[j] != k by {
                let ij = if j < i {
                    j
                } else {
                    j + 1
                };
                assert(r[j] == s[ij]);
            }
            assert forall|x: Key| x != k implies (r.contains(x) <==> s.contains(x)) by {
                if s.contains(x) {
                    let j = choose|j: int| 0 <= j < s.len() && s[j] == x;
                    if j < i {
                        assert(r[j] == x);
                    } else {
                        assert(j != i);
                        assert(r[j - 1] == x);
                    }
                }
                if r.contains(x) {
                    let j = choose|j: int| 0 <= j < r.len() && r[j] == x;
                    if j < i {
                        assert(s[j] == x);
                    } else {
                        assert(s[j + 1] == x);
                    }
                }
            }
        },
        None => {},
    }
}

impl PressedKeys {
    /// No key held.
    pub fn new() -> (r: PressedKeys)
        ensures
            r@ == Seq::<Key>::empty(),
    {
        PressedKeys { keys: Vec::new() }
    }

    /// Whether `key` is held.
    pub fn contains(&self, key: Key) -> (r: bool)
        ensures
            r == self@.contains(key),
    {
        let mut i: usize = 0;
        while i < self.keys.len()
            invariant
                i <= self.keys@.len(),
                forall|j: int| 0 <= j < i ==> self.keys@[j] != key,
            decreases self.keys.len() - i,
        {
            if self.keys[i] == key {
                return true;
            }
            i += 1;
        }
        false
    }

    /// The position of the first occurrence of `key`, if held.
    fn position(&self, key: Key) -> (r: Option<usize>)
        ensures
            match self@.index_of_first(key) {
                Some(i) => r == Some(i as usize),
                None => r is None,
            },
    {
        proof {
            self@.index_of_first_ensures(key);
        }
        let mut i: usize = 0;
        while i < self.keys.len()
            invariant
                i <= self.keys@.len(),
                forall|j: int| 0 <= j < i ==> self.keys@[j] != key,
            decreases self.keys.len() - i,
        {
            if self.keys[i] == key {
                proof {
                    self@.index_of_first_ensures(key);
                    match self@.index_of_first(key) {
                        Some(f) => {
                            assert(f == i as int);
                        },
                        None => {
                            assert(self@[i as int] == key);
                        },
                    }
                }
                return Some(i);
            }
            i += 1;
        }
        proof {
            self@.index_of_first_ensures(key);
            if self@.contains(key) {
                let j = choose|j: int| 0 <= j < self@.len() && self@[j] == key;
                assert(self.keys@[j] != key);
            }
        }
        None
    }

    /// The held keys, in the order they went down.
    pub fn as_slice(&self) -> (r: &[Key])
        ensures
            r@ == self@,
    {
        self.keys.as_slice()
    }

    /// `key` went down: it is added at the end unless it is already held.
    pub fn press(&mut self, key: Key)
        ensures
            final(self)@ == pressed(old(self)@, key),
            old(self)@.no_duplicates() ==> final(self)@.no_duplicates(),
    {
        if !self.contains(key) {
            self.keys.push(key);
        }
    }

    /// `key` went up: its first occurrence is removed, if it is held.
    pub fn release(&mut self, key: Key)
        ensures
            final(self)@ == released(old(self)@, key),
            old(self)@.no_duplicates() ==> final(self)@.no_duplicates(),
    {
        proof {
            self@.index_of_first_ensures(key);
        }
        match self.position(key) {
            Some(i) => {
                let ghost s = self@;
                self.keys.remove(i);
                proof {
                    assert(s.index_of_first(key) == Some(i as int));
                    assert(released(s, key) == s.remove(i as int));
                    assert(self@ =~= s.remove(i as int));
                    if s.no_duplicates() {
                        lemma_remove_value(s, key);
                    }
                }
            },
            None => {
                assert(self@.index_of_first(key) is None);
                assert(released(self@, key) == self@);
            },
        }
    }

    /// Applies a key event.
    pub fn apply(&mut self, state: KeyState, key: Key)
        ensures
            final(self)@ == after_key_event(old(self)@, state, key),
            old(self)@.no_duplicates() ==> final(self)@.no_duplicates(),
    {
        match state {
            KeyState::Pressed => self.press(key),
            KeyState::Released => self.release(key),
        }
    }
}

/// A key held down is held once, and letting it go leaves it no longer
/// held; a key pressed and released again, when it was not held before,
/// leaves the held keys as they were; and pressing a held key changes
/// nothing.
pub proof fn law_press_release(s: Seq<Key>, k: Key)
    requires
        s.no_duplicates(),
    ensures
        pressed(s, k).contains(k),
        pressed(s, k).no_duplicates(),
        !released(s, k).contains(k),
        released(s, k).no_duplicates(),
        !s.contains(k) ==> released(pressed(s, k), k) == s,
        s.contains(k) ==> pressed(s, k) == s,
{
    let p = pressed(s, k);
    if !s.contains(k) {
        assert(p[s.len() as int] == k);
        assert forall|a: int, b: int| 0 <= a < p.len() && 0 <= b < p.len() && a != b implies p[a]
            != p[b] by {
            if a < s.len() && b < s.len() {
            } else if a < s.len() {
                assert(s[a] != k);
            } else if b < s.len() {
                assert(s[b] != k);
            }
        }
        p.index_of_first_ensures(k);
        match p.index_of_first(k) {
            Some(i) => {
                if i < s.len() {
                    assert(s[i] == k);
                }
                assert(i == s.len());
                assert(p.remove(i) =~= s);
            },
            None => {},
        }
    } else {
        let i = choose|i: int| 0 <= i < s.len() && s[i] == k;
        assert(p[i] == k);
    }
    lemma_remove_value(s, k);
}

/// A key event changes the held keys as follows. A key going down is held
/// afterwards, every key held before stays held and in its place, and
/// nothing changes if it was already held; otherwise it is added at the end.
/// A key going up, from held keys that hold no key twice (as the held keys
/// of [`PressedKeys`] never do), is no longer held afterwards, every other
/// key keeps its state, and the others stay in their order: if it was held,
/// exactly one occurrence of it is taken out.
pub proof fn law_key_events(s: Seq<Key>, k: Key)
    ensures
        ({
            let p = after_key_event(s, KeyState::Pressed, k);
            &&& p.contains(k)
            &&& p.len() >= s.len()
            &&& forall|i: int| 0 <= i < s.len() ==> p[i] == s[i]
            &&& s.contains(k) ==> p == s
            &&& !s.contains(k) ==> p == s.push(k)
            &&& s.no_duplicates() ==> p.no_duplicates()
        }),
        s.no_duplicates() ==> ({
            let r = after_key_event(s, KeyState::Released, k);
            &&& !r.contains(k)
            &&& r.no_duplicates()
            &&& forall|x: Key| x != k ==> (r.contains(x) <==> s.contains(x))
            &&& !s.contains(k) ==> r == s
            &&& s.contains(k) ==> exists|i: int|
                0 <= i < s.len() && s[i] == k && r == s.subrange(0, i) + s.subrange(
                    i + 1,
                    s.len() as int,
                )
        }),
{
    let p = after_key_event(s, KeyState::Pressed, k);
    if !s.contains(k) {
        assert(p[s.len() as int] == k);
        assert forall|i: int| 0 <= i < s.len() implies p[i] == s[i] by {}
    }
    if s.no_duplicates() {
        law_press_release(s, k);
        lemma_remove_value(s, k);
    }
}

/// What the window asks of the event loop.
#[derive(Clone, Copy, PartialEq, Eq, Structural, Debug)]
pub enum WindowInput {
    /// The window's close button.
    CloseRequested,
    /// A key went down or up.
    Keyboard(KeyState, Key),
    /// Anything else (mouse motion among it).
    Other,
}

/// Whether the event loop goes on waiting or stops.
#[derive(Clone, Copy, PartialEq, Eq, Structural, Debug)]
pub enum Flow {
    Wait,
    Exit,
}

/// The loop stops once the render thread has failed, the window is asked
/// to close, or Escape or Q goes down or up.
pub open spec fn should_exit(render_healthy: bool, input: WindowInput) -> bool {
    ||| !render_healthy
    ||| input == WindowInput::CloseRequested
    ||| input matches WindowInput::Keyboard(_, k) && (k == Key::Escape || k == Key::Q)
}

/// The loop stops exactly in these cases, and in no other: a failed render
/// thread stops it whatever the input; with a healthy render thread, the
/// close button stops it, Escape or Q going down or up stops it, any other
/// key going down or up does not, and any other input does not.
pub proof fn law_exit_cases(state: KeyState, k: Key)
    ensures
        forall|input: WindowInput| #[trigger] should_exit(false, input),
        should_exit(true, WindowInput::CloseRequested),
        should_exit(true, WindowInput::Keyboard(state, Key::Escape)),
        should_exit(true, WindowInput::Keyboard(state, Key::Q)),
        k != Key::Escape && k != Key::Q ==> !should_exit(true, WindowInput::Keyboard(state, k)),
        !should_exit(true, WindowInput::Other),
{
}

/// What the event loop does after `input`.
pub fn control_flow(render_healthy: bool, input: WindowInput) -> (r: Flow)
    ensures
        r == (if should_exit(render_healthy, input) {
            Flow::Exit
        } else {
            Flow::Wait
        }),
{
    let mut flow = Flow::Wait;
    if !render_healthy {
        flow = Flow::Exit;
    }
    match input {
        WindowInput::CloseRequested => {
            flow = Flow::Exit;
        },
        WindowInput::Keyboard(_, key) => {
            match key {
                Key::Escape => {
                    flow = Flow::Exit;
                },
                Key::Q => {
                    flow = Flow::Exit;
                },
                _ => {},
            }
        },
        WindowInput::Other => {},
    }
    flow
}

/// A motion of the camera, once per frame for each key held.
#[derive(Clone, Copy, PartialEq, Eq, Structural, Debug)]
pub enum CameraMotion {
    /// Along the direction the camera faces in the ground plane.
    Forward,
    /// Against the camera's right-hand direction.
    Left,
    /// Against the direction the camera faces.
    Backward,
    /// Along the camera's right-hand direction.
    Right,
    /// Turn about the vertical axis one way (`rho` goes down).
    YawDecrease,
    /// Turn about the vertical axis the other way (`rho` goes up).
    YawIncrease,
    /// Tilt one way (`th` goes down).
    PitchDecrease,
    /// Tilt the other way (`th` goes up).
    PitchIncrease,
    /// Height goes down (`y` goes down).
    HeightDecrease,
    /// Height goes up (`y` goes up).
    HeightIncrease,
}

/// The motion bound to each key: W A S D to walk, H L to turn, K J to tilt,
/// R F to fly.
pub open spec fn motion_of(key: Key) -> Option<CameraMotion> {
    match key {
        Key::W => Some(CameraMotion::Forward),
        Key::A => Some(CameraMotion::Left),
        Key::S => Some(CameraMotion::Backward),
        Key::D => Some(CameraMotion::Right),
        Key::H => Some(CameraMotion::YawDecrease),
        Key::L => Some(CameraMotion::YawIncrease),
        Key::K => Some(CameraMotion::PitchDecrease),
        Key::J => Some(CameraMotion::PitchIncrease),
        Key::R => Some(CameraMotion::HeightDecrease),
        Key::F => Some(CameraMotion::HeightIncrease),
        _ => None,
    }
}

/// W and S walk forward and back, A and D left and right, H and L turn,
/// K and J tilt and R and F fly, each pair in opposite directions; every
/// other key (Q, Escape and the unnamed ones) leaves the camera alone.
pub proof fn law_camera_keys(code: u32)
    ensures
        motion_of(Key::W) == Some(CameraMotion::Forward),
        motion_of(Key::S) == Some(CameraMotion::Backward),
        motion_of(Key::A) == Some(CameraMotion::Left),
        motion_of(Key::D) == Some(CameraMotion::Right),
        motion_of(Key::H) == Some(CameraMotion::YawDecrease),
        motion_of(Key::L) == Some(CameraMotion::YawIncrease),
        motion_of(Key::K) == Some(CameraMotion::PitchDecrease),
        motion_of(Key::J) == Some(CameraMotion::PitchIncrease),
        motion_of(Key::R) == Some(CameraMotion::HeightDecrease),
        motion_of(Key::F) == Some(CameraMotion::HeightIncrease),
        motion_of(Key::Q) is None,
        motion_of(Key::Escape) is None,
        motion_of(Key::Other(code)) is None,
{
}

/// The camera motion that a held key asks for, if any.
pub fn camera_motion(key: Key) -> (r: Option<CameraMotion>)
    ensures
        r == motion_of(key),
{
    match key {
        Key::W => Some(CameraMotion::Forward),
        Key::A => Some(CameraMotion::Left),
        Key::S => Some(CameraMotion::Backward),
        Key::D => Some(CameraMotion::Right),
        Key::H => Some(CameraMotion::YawDecrease),
        Key::L => Some(CameraMotion::YawIncrease),
        Key::K => Some(CameraMotion::PitchDecrease),
        Key::J => Some(CameraMotion::PitchIncrease),
        Key::R => Some(CameraMotion::HeightDecrease),
        Key::F => Some(CameraMotion::HeightIncrease),
        _ => None,
    }
}

} // verus!
