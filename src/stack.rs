//! The path of names from the root down to the node being reported.
use vstd::prelude::*;
use vstd::string::StringExecFns;

verus! {

/// What `pop` reports on a stack that holds no segment.
#[derive(Debug, Clone, Copy, PartialEq, Eq, Structural)]
pub struct EmptyStackError;

/// The segments of a path, outermost first.
pub struct Stack {
    segments: Vec<String>,
}

/// The segments joined by `/`.
pub open spec fn join_path(s: Seq<Seq<char>>) -> Seq<char>
    decreases s.len(),
{
    if s.len() == 0 {
        seq![]
    } else if s.len() == 1 {
        s[0]
    } else {
        join_path(s.drop_last()) + "/"@ + s.last()
    }
}

impl View for Stack {
    type V = Seq<Seq<char>>;

    closed spec fn view(&self) -> Seq<Seq<char>> {
        self.segments@.map_values(|s: String| s@)
    }
}

impl Stack {
    /// A stack with no segment.
    pub fn empty() -> (r: Stack)
        ensures
            r@ == Seq::<Seq<char>>::empty(),
    {
        let r = Stack { segments: Vec::new() };
        assert(r@ =~= Seq::<Seq<char>>::empty());
        r
    }

    pub fn len(&self) -> (r: usize)
        ensures
            r == self@.len(),
    {
        self.segments.len()
    }

    /// Appends a segment.
    pub fn push(&mut self, name: String)
        ensures
            final(self)@ == old(self)@.push(name@),
    {
        self.segments.push(name);
        assert(self@ =~= old(self)@.push(name@));
    }

    /// Removes and returns the last segment.
    pub fn pop(&mut self) -> (r: Result<String, EmptyStackError>)
        ensures
            old(self)@.len() == 0 ==> r is Err && final(self)@ == old(self)@,
            old(self)@.len() > 0 ==> r is Ok && r->Ok_0@ == old(self)@.last()
                && final(self)@ == old(self)@.drop_last(),
    {
        match self.segments.pop() {
            Some(s) => {
                assert(self@ =~= old(self)@.drop_last());
                Ok(s)
            },
            None => Err(EmptyStackError),
        }
    }

    /// The segments joined by `/`, outermost first.
    pub fn to_string(&self) -> (r: String)
        ensures
            r@ == join_path(self@),
    {
        let mut r = String::new();
        let mut i: usize = 0;
        while i < self.segments.len()
            invariant
                i <= self@.len(),
                self@.len() == self.segments@.len(),
                r@ == join_path(self@.take(i as int)),
            decreases self@.len() - i,
        {
            assert(self@.take(i as int + 1).drop_last() =~= self@.take(i as int));
            assert(self@[i as int] == self.segments@[i as int]@);
            if i > 0 {
                proof {
                    reveal_strlit("/");
                }
                r.append("/");
            }
            r.append(self.segments[i].as_str());
            i = i + 1;
        }
        assert(self@.take(i as int) =~= self@);
        r
    }
}

} // verus!
