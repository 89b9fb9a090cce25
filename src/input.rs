use vstd::prelude::*;

verus! {

/// The keys the controls react to; any other key is kept by its code.
#[derive(Clone, Copy, Debug, PartialEq, Eq, Structural)]
pub enum Key {
    W,
    A,
    S,
    D,
    Space,
    LShift,
    Up,
    Down,
    Left,
    Right,
    Escape,
    Q,
    Other(u32),
}

/// The set of keys held down, in the order they were pressed, each at most once.
pub struct PressedKeys {
    keys: Vec<Key>,
}

impl View for PressedKeys {
    type V = Seq<Key>;

    closed spec fn view(&self) -> Seq<Key> {
        self.keys@
    }
}

impl PressedKeys {
    pub closed spec fn wf(&self) -> bool {
        self.keys@.no_duplicates()
    }

    /// No key held.
    pub fn new() -> (r: Self)
        ensures
            r.wf(),
            r@ == Seq::<Key>::empty(),
    {
        PressedKeys { keys: Vec::new() }
    }

    /// Whether `k` is held.
    pub fn contains(&self, k: Key) -> (r: bool)
        ensures
            r == self@.contains(k),
    {
        let mut i: usize = 0;
        while i < self.keys.len()
            invariant
                i <= self.keys@.len(),
                forall|j: int| 0 <= j < i ==> self.keys@[j] != k,
            decreases self.keys@.len() - i,
        {
            if self.keys[i] == k {
                return true;
            }
            i = i + 1;
        }
        false
    }

    /// Records a key press; a key already held stays where it is.
    pub fn press(&mut self, k: Key)
        requires
            old(self).wf(),
        ensures
            final(self).wf(),
            final(self)@ == if old(self)@.contains(k) {
                old(self)@
            } else {
                old(self)@.push(k)
            },
    {
        if !self.contains(k) {
            self.keys.push(k);
            proof {
                assert forall|i: int, j: int|
                    0 <= i < self.keys@.len() && 0 <= j < self.keys@.len() && i != j implies self.keys@[i]
                    != self.keys@[j] by {
                    if i < old(self).keys@.len() && j < old(self).keys@.len() {
                    } else if i < old(self).keys@.len() {
                        assert(old(self).keys@[i] != k);
                    } else {
                        assert(old(self).keys@[j] != k);
                    }
                }
            }
        }
    }

    /// Records a key release. The release of a key that is not held is ignored.
    pub fn release(&mut self, k: Key)
        requires
            old(self).wf(),
        ensures
            final(self).wf(),
            !final(self)@.contains(k),
            !old(self)@.contains(k) ==> final(self)@ == old(self)@,
            old(self)@.contains(k) ==> exists|i: int|
                0 <= i < old(self)@.len() && old(self)@[i] == k && final(self)@ == old(self)@.remove(i),
    {
        let mut i: usize = 0;
        while i < self.keys.len()
            invariant
                i <= self.keys@.len(),
                self.keys@ == old(self).keys@,
                self.keys@.no_duplicates(),
                forall|j: int| 0 <= j < i ==> self.keys@[j] != k,
            decreases self.keys@.len() - i,
        {
            if self.keys[i] == k {
                let ghost before = self.keys@;
                self.keys.remove(i);
                proof {
                    assert(before.remove(i as int) == self.keys@);
                    assert forall|a: int, b: int|
                        0 <= a < self.keys@.len() && 0 <= b < self.keys@.len() && a != b implies self.keys@[a]
                        != self.keys@[b] by {
                        let a0 = if a < i { a } else { a + 1 };
                        let b0 = if b < i { b } else { b + 1 };
                        assert(self.keys@[a] == before[a0]);
                        assert(self.keys@[b] == before[b0]);
                        assert(before[a0] != before[b0]);
                    }
                    assert forall|j: int| 0 <= j < self.keys@.len() implies self.keys@[j] != k by {
                        let j0 = if j < i { j } else { j + 1 };
                        assert(self.keys@[j] == before[j0]);
                        assert(before[i as int] == k);
                        assert(before[j0] != before[i as int]);
                    }
                }
                return;
            }
            i = i + 1;
        }
    }

    /// The keys held, in the order they were pressed.
    pub fn keys(&self) -> (r: &Vec<Key>)
        ensures
            r@ == self@,
    {
        &self.keys
    }
}

/// `1`, `-1` or `0` as only the first, only the second or neither or both hold.
pub open spec fn axis(pos: bool, neg: bool) -> int {
    (if pos { 1int } else { 0int }) - (if neg { 1int } else { 0int })
}

/// What the held keys ask of the camera on one frame: a unit direction per
/// axis to move along, and one per axis to turn about. Each component is
/// `1`, `-1` or `0`; the frame scales it by speed and elapsed time.
#[derive(Clone, Copy, Debug, PartialEq, Eq, Structural)]
pub struct CameraIntent {
    pub move_x: i32,
    pub move_y: i32,
    pub move_z: i32,
    pub turn_x: i32,
    pub turn_y: i32,
}

fn axis_of(pos: bool, neg: bool) -> (r: i32)
    ensures
        r == axis(pos, neg),
{
    (if pos { 1i32 } else { 0i32 }) - (if neg { 1i32 } else { 0i32 })
}

/// The camera motion the held keys ask for: `D`/`A` move along x, `W`/`S`
/// along y, left shift/space along z; up/down turn about x, left/right about y.
pub fn camera_intent(keys: &PressedKeys) -> (r: CameraIntent)
    ensures
        r.move_x == axis(keys@.contains(Key::D), keys@.contains(Key::A)),
        r.move_y == axis(keys@.contains(Key::W), keys@.contains(Key::S)),
        r.move_z == axis(keys@.contains(Key::LShift), keys@.contains(Key::Space)),
        r.turn_x == axis(keys@.contains(Key::Up), keys@.contains(Key::Down)),
        r.turn_y == axis(keys@.contains(Key::Left), keys@.contains(Key::Right)),
{
    CameraIntent {
        move_x: axis_of(keys.contains(Key::D), keys.contains(Key::A)),
        move_y: axis_of(keys.contains(Key::W), keys.contains(Key::S)),
        move_z: axis_of(keys.contains(Key::LShift), keys.contains(Key::Space)),
        turn_x: axis_of(keys.contains(Key::Up), keys.contains(Key::Down)),
        turn_y: axis_of(keys.contains(Key::Left), keys.contains(Key::Right)),
    }
}

} // verus!
