use vstd::prelude::*;

verus! {

/// What happened to a key this tick.
#[derive(Clone, Copy, Debug, PartialEq, Eq, Structural)]
pub enum InputState {
    /// Just been pressed.
    Pressed,
    /// Just been released.
    Released,
}

/// The game's inputs.
#[derive(Clone, Copy, Debug, PartialEq, Eq, Structural)]
pub enum Input {
    Up,
    Down,
    Left,
    Right,
}

/// The position of an input in the list.
pub open spec fn input_index(inp: Input) -> int {
    match inp {
        Input::Up => 0,
        Input::Down => 1,
        Input::Left => 2,
        Input::Right => 3,
    }
}

/// The latest state of each input, if it has one.
pub struct InputList {
    pub inputs: Vec<Option<InputState>>,
}

impl InputList {
    pub open spec fn wf(self) -> bool {
        self.inputs@.len() == 4
    }

    pub fn new() -> (r: InputList)
        ensures
            r.wf(),
            forall|i: int| 0 <= i < 4 ==> r.inputs@[i] is None,
    {
        InputList { inputs: vec![None, None, None, None] }
    }

    fn input_to_index(inp: &Input) -> (r: usize)
        ensures
            r == input_index(*inp),
    {
        match inp {
            Input::Up => 0,
            Input::Down => 1,
            Input::Left => 2,
            Input::Right => 3,
        }
    }

    pub fn input_state(&self, inp: Input) -> (r: Option<InputState>)
        requires
            self.wf(),
        ensures
            r == self.inputs@[input_index(inp)],
    {
        self.inputs[Self::input_to_index(&inp)]
    }

    pub fn set_input(&mut self, inp: Input, state: InputState)
        requires
            old(self).wf(),
        ensures
            final(self).inputs@ == old(self).inputs@.update(input_index(inp), Some(state)),
            final(self).wf(),
    {
        let idx = Self::input_to_index(&inp);
        self.inputs.set(idx, Some(state));
    }
}

} // verus!
