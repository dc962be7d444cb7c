//! The browser shell's state: the address, what is shown, and the history of
//! visited addresses with a cursor into it.
use vstd::prelude::*;
use crate::parser::strs;

verus! {

pub struct ZephyrGuiApp {
    pub address: String,
    pub page_text: String,
    pub status: String,
    pub history: Vec<String>,
    /// The index of the current entry of `history`, -1 before the first visit.
    pub history_index: isize,
}

/// The history after a visit to `url` that is recorded: entries after the
/// cursor are dropped, and `url` is appended unless it is already last, the
/// cursor then pointing at it.
pub open spec fn visit(h: Seq<Seq<char>>, idx: int, url: Seq<char>) -> (Seq<Seq<char>>, int) {
    let h1 = if idx >= 0 && idx + 1 < h.len() {
        h.take(idx + 1)
    } else {
        h
    };
    if h1.len() == 0 || h1.last() != url {
        (h1.push(url), h1.len() as int)
    } else {
        (h1, idx)
    }
}

impl Default for ZephyrGuiApp {
    fn default() -> (r: Self)
        ensures
            r.wf(),
            r.history@.len() == 0,
            r.history_index == -1,
    {
        ZephyrGuiApp::new()
    }
}

impl ZephyrGuiApp {
    /// The cursor points into the history, or is -1.
    pub open spec fn wf(&self) -> bool {
        &&& -1 <= self.history_index < self.history@.len()
        &&& self.history@.len() <= isize::MAX
    }

    pub open spec fn entries(&self) -> Seq<Seq<char>> {
        strs(self.history@)
    }

    pub fn new() -> (r: Self)
        ensures
            r.wf(),
            r.address@ == "https://duckduckgo.com"@,
            r.page_text@ == "Welcome to Zephyr Rust GUI"@,
            r.status@ == "Ready"@,
            r.history@.len() == 0,
            r.history_index == -1,
    {
        ZephyrGuiApp {
            address: String::from_str("https://duckduckgo.com"),
            page_text: String::from_str("Welcome to Zephyr Rust GUI"),
            status: String::from_str("Ready"),
            history: Vec::new(),
            history_index: -1,
        }
    }

    pub fn can_back(&self) -> (r: bool)
        ensures
            r == (self.history_index > 0),
    {
        self.history_index > 0
    }

    pub fn can_forward(&self) -> (r: bool)
        ensures
            r == (self.history_index >= 0 && self.history_index + 1 < self.history@.len()),
    {
        self.history_index >= 0 && (self.history_index as usize) < self.history.len() && (
        self.history_index as usize) + 1 < self.history.len()
    }

    /// Records a page that loaded: it is shown, its address becomes current,
    /// and, where asked, the visit enters the history.
    pub fn record_loaded(&mut self, url: String, page_text: String, push_history: bool)
        requires
            old(self).wf(),
            old(self).history@.len() < isize::MAX,
        ensures
            final(self).wf(),
            final(self).address@ == url@,
            final(self).page_text@ == page_text@,
            final(self).status@ == "Done"@,
            push_history ==> (final(self).entries(), final(self).history_index as int) == visit(
                old(self).entries(),
                old(self).history_index as int,
                url@,
            ),
            !push_history ==> final(self).history@ == old(self).history@ && final(self).history_index
                == old(self).history_index,
    {
        self.page_text = page_text;
        self.status = String::from_str("Done");
        if push_history {
            let ghost h = self.entries();
            let ghost idx = self.history_index as int;
            if self.history_index >= 0 && (self.history_index as usize) + 1 < self.history.len() {
                self.history.truncate((self.history_index as usize) + 1);
                assert(strs(self.history@) =~= h.take(idx + 1));
            }
            let n = self.history.len();
            let push = n == 0 || !(self.history[n - 1] == url);
            if push {
                let ghost before = self.history@;
                self.history.push(url.clone());
                assert(strs(self.history@) =~= strs(before).push(url@));
                self.history_index = n as isize;
            }
        }
        self.address = url;
    }

    /// Records a page that failed to load, with the message shown in its place.
    pub fn record_failed(&mut self, message: String)
        ensures
            final(self).page_text@ == message@,
            final(self).status@ == "Load error"@,
            final(self).address == old(self).address,
            final(self).history@ == old(self).history@,
            final(self).history_index == old(self).history_index,
    {
        self.page_text = message;
        self.status = String::from_str("Load error");
    }

    /// Moves the cursor back one entry and returns that entry's address.
    pub fn step_back(&mut self) -> (r: Option<String>)
        requires
            old(self).wf(),
        ensures
            final(self).wf(),
            final(self).history@ == old(self).history@,
            old(self).history_index > 0 ==> final(self).history_index == old(self).history_index - 1
                && (r matches Some(u) && u@ == old(self).entries()[final(self).history_index as int]),
            old(self).history_index <= 0 ==> r is None && final(self).history_index
                == old(self).history_index,
    {
        if self.history_index > 0 {
            self.history_index -= 1;
            Some(self.history[self.history_index as usize].clone())
        } else {
            None
        }
    }

    /// Moves the cursor forward one entry and returns that entry's address.
    pub fn step_forward(&mut self) -> (r: Option<String>)
        requires
            old(self).wf(),
        ensures
            final(self).wf(),
            final(self).history@ == old(self).history@,
            old(self).history_index >= 0 && old(self).history_index + 1 < old(self).history@.len()
                ==> final(self).history_index == old(self).history_index + 1 && (r matches Some(u)
                && u@ == old(self).entries()[final(self).history_index as int]),
            !(old(self).history_index >= 0 && old(self).history_index + 1 < old(self).history@.len())
                ==> r is None && final(self).history_index == old(self).history_index,
    {
        if self.can_forward() {
            self.history_index += 1;
            Some(self.history[self.history_index as usize].clone())
        } else {
            None
        }
    }
}

} // verus!
