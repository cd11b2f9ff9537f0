//! One value per CPU, reached by the index a CPU was assigned. The index is
//! dense and starts at the boot CPU; it is not the hardware's number.
use vstd::prelude::*;
use crate::config::MAX_CPUS;
use crate::exec::BOOT_CPU;

verus! {

/// The index of the CPU asking, given what the port's register says, if a port
/// has installed one. Without one there is a single CPU.
pub fn current_index(register: Option<u32>) -> (index: u32)
    ensures
        index == match register {
            Some(i) => i,
            None => BOOT_CPU,
        },
{
    match register {
        Some(i) => i,
        None => BOOT_CPU,
    }
}

/// One `T` per CPU.
pub struct PerCpu<T> {
    slots: Vec<T>,
}

impl<T> View for PerCpu<T> {
    type V = Seq<T>;

    closed spec fn view(&self) -> Seq<T> {
        self.slots@
    }
}

impl<T: Copy> PerCpu<T> {
    /// Every slot set to `init`.
    pub fn new(init: T) -> (p: PerCpu<T>)
        ensures
            p.wf(),
            forall|i: int| 0 <= i < MAX_CPUS ==> #[trigger] p@[i] == init,
    {
        let mut slots: Vec<T> = Vec::new();
        while slots.len() < MAX_CPUS
            invariant
                slots@.len() <= MAX_CPUS,
                forall|i: int| 0 <= i < slots@.len() ==> #[trigger] slots@[i] == init,
            decreases MAX_CPUS - slots@.len(),
        {
            slots.push(init);
        }
        PerCpu { slots }
    }
}

impl<T> PerCpu<T> {
    /// There is a slot for each CPU the kernel was built for.
    pub open spec fn wf(&self) -> bool {
        self@.len() == MAX_CPUS
    }

    /// How many slots there are: what the kernel was built for, not how many
    /// CPUs the machine has.
    pub fn capacity() -> (n: u32)
        ensures
            n == MAX_CPUS,
    {
        MAX_CPUS as u32
    }

    /// The slot of `index`, or `None` beyond the ceiling: a machine may have
    /// more CPUs than the kernel was built for.
    pub fn get(&self, index: u32) -> (r: Option<&T>)
        requires
            self.wf(),
        ensures
            match r {
                Some(t) => index < MAX_CPUS && *t == self@[index as int],
                None => index >= MAX_CPUS,
            },
    {
        if index as usize >= MAX_CPUS {
            return None;
        }
        Some(&self.slots[index as usize])
    }

    /// The slot of `index` to change, or `None` beyond the ceiling.
    pub fn with_mut(&mut self, index: u32) -> (r: Option<&mut T>)
        requires
            old(self).wf(),
        ensures
            match r {
                Some(t) => {
                    &&& index < MAX_CPUS
                    &&& *t == old(self)@[index as int]
                    &&& final(self)@ == old(self)@.update(index as int, *final(t))
                    &&& final(self).wf()
                },
                None => index >= MAX_CPUS && final(self)@ == old(self)@ && final(self).wf(),
            },
    {
        if index as usize >= MAX_CPUS {
            return None;
        }
        Some(&mut self.slots[index as usize])
    }

    /// Every slot, in index order.
    pub fn iter(&self) -> (s: &[T])
        ensures
            s@ == self@,
    {
        self.slots.as_slice()
    }
}

} // verus!
