use vstd::prelude::*;

verus! {

/// What a log sink is asked to do.
pub enum Message {
    /// Hand out every buffered line and start a new buffer.
    Flush,
    /// Buffer one line.
    Log(String),
}

/// A buffer of log lines that are handed out in the order they arrived.
pub struct Logger {
    lst: Vec<String>,
}

impl View for Logger {
    type V = Seq<String>;

    closed spec fn view(&self) -> Seq<String> {
        self.lst@
    }
}

impl Logger {
    /// A logger with an empty buffer.
    pub fn new() -> (r: Logger)
        ensures
            r@ == Seq::<String>::empty(),
    {
        Logger { lst: Vec::new() }
    }

    /// Lines buffered so far, oldest first.
    pub fn pending(&self) -> (r: &Vec<String>)
        ensures
            r@ == self@,
    {
        &self.lst
    }

    /// Applies one message: `Log` buffers its line and hands out nothing; `Flush`
    /// hands out every buffered line, oldest first, and empties the buffer.
    pub fn handle(&mut self, msg: Message) -> (out: Vec<String>)
        ensures
            match msg {
                Message::Flush => out@ == old(self)@ && final(self)@ == Seq::<String>::empty(),
                Message::Log(x) => out@ == Seq::<String>::empty() && final(self)@ == old(self)@.push(x),
            },
    {
        match msg {
            Message::Flush => {
                let out = self.lst.split_off(0);
                assert(out@ =~= old(self)@);
                out
            },
            Message::Log(x) => {
                self.lst.push(x);
                Vec::new()
            },
        }
    }
}

} // verus!
