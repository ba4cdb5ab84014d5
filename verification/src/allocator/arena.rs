use vstd::prelude::*;

verus! {

/// The number of bytes in one word of heap memory.
pub const WORD_SIZE: usize = 8;

/// The word that stands for "no next node" in a stored link. It is no multiple of the word
/// size, so it is the address of no word.
pub const NO_LINK: usize = usize::MAX;

/// A link as it is stored in a word of the heap.
pub open spec fn encode_link(link: Option<usize>) -> usize {
    match link {
        Some(addr) => addr,
        None => NO_LINK,
    }
}

/// The link that a word of the heap stores.
pub open spec fn decode_link(word: usize) -> Option<usize> {
    if word == NO_LINK {
        None
    } else {
        Some(word)
    }
}

/// The word that stores `link`.
pub fn link_word(link: Option<usize>) -> (r: usize)
    ensures
        r == encode_link(link),
{
    match link {
        Some(addr) => addr,
        None => NO_LINK,
    }
}

/// The link that `word` stores.
pub fn word_link(word: usize) -> (r: Option<usize>)
    ensures
        r == decode_link(word),
{
    if word == NO_LINK {
        None
    } else {
        Some(word)
    }
}

/// The memory of a heap region, word by word.
///
/// The allocators keep their free lists inside the very memory they hand out, and reach it
/// through this trait alone: `size` bytes from the address `start` on, read and written one
/// aligned word at a time, and only at addresses inside the region. A word holds what was
/// written to it last.
///
/// [`Arena`] is such a memory, proved to be one. A kernel implements the trait over the heap
/// region itself; what is proved of the allocators then holds as far as that memory keeps to
/// what the trait says.
pub trait Memory: Sized {
    /// The address of the first byte of the region.
    spec fn start(&self) -> usize;

    /// The number of bytes in the region.
    spec fn size(&self) -> usize;

    /// The word stored at `addr`.
    spec fn word(&self, addr: usize) -> usize;

    /// Whether every whole word of the region can be read and written.
    spec fn backed(&self) -> bool;

    /// A memory over no bytes at all.
    fn empty() -> (r: Self)
        ensures
            r.backed(),
            r.start() == 0,
            r.size() == 0,
    ;

    /// The memory of the `size` bytes from `start` on.
    fn over(start: usize, size: usize) -> (r: Self)
        requires
            start % WORD_SIZE == 0,
            start + size <= usize::MAX,
        ensures
            r.backed(),
            r.start() == start,
            r.size() == size,
    ;

    /// Reads the word at `addr`, which is the address of a whole word of the region.
    fn read(&self, addr: usize) -> (r: usize)
        requires
            self.backed(),
            self.start() % WORD_SIZE == 0,
            addr % WORD_SIZE == 0,
            self.start() <= addr,
            addr + WORD_SIZE <= self.start() + self.size() <= usize::MAX,
        ensures
            r == self.word(addr),
    ;

    /// Writes `value` to the word at `addr`, which is the address of a whole word of the
    /// region. No other word changes.
    fn write(&mut self, addr: usize, value: usize)
        requires
            old(self).backed(),
            old(self).start() % WORD_SIZE == 0,
            addr % WORD_SIZE == 0,
            old(self).start() <= addr,
            addr + WORD_SIZE <= old(self).start() + old(self).size() <= usize::MAX,
        ensures
            final(self).backed(),
            final(self).start() == old(self).start(),
            final(self).size() == old(self).size(),
            final(self).word(addr) == value,
            forall|other: usize|
                other % WORD_SIZE == 0 && old(self).start() <= other && other + WORD_SIZE
                    <= old(self).start() + old(self).size() && other != addr
                    ==> #[trigger] final(self).word(other) == old(self).word(other),
    ;
}

/// The region starts at a word boundary, ends inside the address space, and every whole word of
/// it can be read and written.
pub open spec fn wf<M: Memory>(memory: &M) -> bool {
    &&& memory.start() % WORD_SIZE == 0
    &&& memory.start() + memory.size() <= usize::MAX
    &&& memory.backed()
}

/// A heap region that is no real memory: its words are kept in a vector, every one zero at
/// first.
pub struct Arena {
    start: usize,
    size: usize,
    words: Vec<usize>,
}

impl Memory for Arena {
    closed spec fn start(&self) -> usize {
        self.start
    }

    closed spec fn size(&self) -> usize {
        self.size
    }

    closed spec fn word(&self, addr: usize) -> usize {
        self.words@[(addr - self.start) / (WORD_SIZE as int)]
    }

    closed spec fn backed(&self) -> bool {
        self.words@.len() == self.size / WORD_SIZE
    }

    fn empty() -> (r: Self) {
        Arena { start: 0, size: 0, words: Vec::new() }
    }

    fn over(start: usize, size: usize) -> (r: Self)
        ensures
            forall|addr: usize|
                addr % WORD_SIZE == 0 && start <= addr && addr + WORD_SIZE <= start + size
                    ==> #[trigger] r.word(addr) == 0,
    {
        let words: Vec<usize> = vec![0usize; size / WORD_SIZE];
        Arena { start, size, words }
    }

    fn read(&self, addr: usize) -> (r: usize) {
        self.words[(addr - self.start) / WORD_SIZE]
    }

    fn write(&mut self, addr: usize, value: usize) {
        let index = (addr - self.start) / WORD_SIZE;
        self.words[index] = value;
    }
}

} // verus!
