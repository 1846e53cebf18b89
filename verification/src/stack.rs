use vstd::prelude::*;
use vstd::std_specs::cmp::PartialEqSpec;

verus! {

/// A stack of frames; every frame pushed by `with_stack_frame` is popped again
/// before that call returns.
#[derive(Clone)]
pub struct Stack<T>(Vec<T>);

impl<T> View for Stack<T> {
    type V = Seq<T>;

    open spec fn view(&self) -> Seq<T> {
        self.frames_spec()
    }
}

impl<T> Stack<T> {
    pub closed spec fn frames_spec(&self) -> Seq<T> {
        self.0@
    }
}

impl<T: PartialEq> Stack<T> {
    pub fn new() -> (s: Self)
        ensures
            s@ == Seq::<T>::empty(),
    {
        Stack(Vec::new())
    }

    /// Whether some frame equals `t`.
    pub fn contains(&self, t: &T) -> (r: bool)
        ensures
            T::obeys_eq_spec() ==> (r <==> exists|i: int|
                0 <= i < self@.len() && #[trigger] self@[i].eq_spec(t)),
    {
        let mut i: usize = 0;
        while i < self.0.len()
            invariant
                i <= self.0@.len(),
                T::obeys_eq_spec() ==> forall|j: int| 0 <= j < i ==> !(#[trigger] self.0@[j]).eq_spec(t),
            decreases self.0@.len() - i,
        {
            if self.0[i] == *t {
                assert(T::obeys_eq_spec() ==> self@[i as int].eq_spec(t));
                return true;
            }
            i += 1;
        }
        false
    }

    /// Runs `func` with `key` pushed as a new top frame, then pops that frame.
    pub fn with_stack_frame<R, F: FnOnce(&mut Self) -> R>(&mut self, key: T, func: F) -> (r: R)
        requires
            forall|s: &mut Self| #[trigger] call_requires(func, (s,)),
            forall|s: &mut Self, r: R| #[trigger] call_ensures(func, (s,), r) ==> final(s)@.len() == (*s)@.len(),
        ensures
            final(self)@.len() == old(self)@.len(),
            exists|s: &mut Self|
                (*s)@ == old(self)@.push(key) && #[trigger] call_ensures(func, (s,), r) && final(self)@ == final(s)@.take(
                    old(self)@.len() as int,
                ),
            (forall|s: &mut Self, r: R| #[trigger] call_ensures(func, (s,), r) ==> final(s)@ == (*s)@)
                ==> final(self)@ == old(self)@,
    {
        let ghost len0 = self@.len();
        self.0.push(key);
        let ghost pushed = self@;
        let result = func(self);
        assert(self@.len() == len0 + 1);
        let ghost after = self@;
        self.0.pop();
        proof {
            assert(self@ =~= after.take(len0 as int));
        }
        result
    }

    /// Consumes the stack, returning its frames from bottom to top.
    pub fn into_frames(self) -> (v: Vec<T>)
        ensures
            v@ == self@,
    {
        self.0
    }

    /// The frames from bottom to top.
    pub fn frames(&self) -> (v: &[T])
        ensures
            v@ == self@,
    {
        self.0.as_slice()
    }
}

} // verus!
