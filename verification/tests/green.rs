use concurrent_kit::green::ident::{claim, get_id, release};
use concurrent_kit::green::mailbox::MappedList;
use concurrent_kit::green::registers::Registers;
use concurrent_kit::green::runtime::{
    entry_point, finish_main, recv, recv_wake, rm_unused_stack, schedule, send, spawn,
    spawn_from_main, Exit, Recv, Runtime, Spawned,
};
use concurrent_kit::green::stack::{stack_size_ok, GuardPage, Stack, PAGE_SIZE};
use concurrent_kit::green::state::{Context, Switch};
use std::collections::{HashMap, HashSet};

const TRAMPOLINE: u64 = 0x40_1000;

fn stack_at(n: u64) -> Stack {
    Stack::new(0x10_0000 * (n + 1), 2 * 1024 * 1024).unwrap()
}

#[test]
fn fresh_registers_hold_stack_pointer_and_trampoline() {
    let regs = Registers::new(0x7000, 0x1234);
    assert_eq!(
        regs,
        Registers { rbx: 0, rbp: 0, r12: 0, r13: 0, r14: 0, r15: 0, rsp: 0x7000, rdx: 0x1234 }
    );
}

#[test]
fn stack_sizes_are_whole_pages_above_the_guard() {
    assert_eq!(PAGE_SIZE, 4096);
    assert!(!stack_size_ok(0));
    assert!(!stack_size_ok(4096));
    assert!(stack_size_ok(8192));
    assert!(!stack_size_ok(8193));
    assert!(!stack_size_ok(6000));
    assert!(stack_size_ok(2 * 1024 * 1024));
    assert!(!stack_size_ok(usize::MAX - 4095));
}

#[test]
fn stack_blocks_are_checked() {
    assert_eq!(Stack::new(0x20000, 8192), Some(Stack { base: 0x20000, size: 8192 }));
    assert_eq!(Stack::new(0, 8192), None);
    assert_eq!(Stack::new(0x20001, 8192), None);
    assert_eq!(Stack::new(0x20000, 4096), None);
    assert_eq!(Stack::new(0x20000, 8000), None);
    assert_eq!(Stack::new(u64::MAX - 4095, 8192), None);
}

#[test]
fn guard_page_is_the_lowest_page() {
    let stack = Stack::new(0x30000, 16384).unwrap();
    assert_eq!(stack.guard_page(), GuardPage { addr: 0x30000, len: 4096 });
    assert_eq!(stack.top(), 0x34000);
    assert_eq!(stack.align(), 4096);
    // The guard page ends where the usable part begins, below the top.
    let page = stack.guard_page();
    assert!(page.addr + (page.len as u64) < stack.top());
}

#[test]
fn context_starts_at_the_top_of_its_stack() {
    let stack = Stack::new(0x30000, 16384).unwrap();
    let ctx = Context::new(5u8, stack, 77, TRAMPOLINE);
    assert_eq!(ctx.id, 77);
    assert_eq!(ctx.entry, 5);
    assert_eq!(ctx.stack, stack);
    assert_eq!(*ctx.get_regs(), Registers::new(0x34000, TRAMPOLINE));
}

#[test]
fn mailbox_is_first_in_first_out() {
    let mut list: MappedList<u64> = MappedList::new();
    assert!(!list.has_message(7));
    assert_eq!(list.pop_front(7), None);
    list.push_back(7, 1);
    list.push_back(7, 2);
    list.push_back(9, 100);
    list.push_back(7, 3);
    assert!(list.has_message(7));
    assert_eq!(list.pop_front(7), Some(1));
    assert_eq!(list.pop_front(9), Some(100));
    assert_eq!(list.pop_front(9), None);
    assert_eq!(list.pop_front(7), Some(2));
    assert_eq!(list.pop_front(7), Some(3));
    assert_eq!(list.pop_front(7), None);
    assert!(!list.has_message(7));
    list.push_back(1, 5);
    list.clear();
    assert_eq!(list.pop_front(1), None);
}

#[test]
fn identities_are_claimed_once() {
    let mut ids = HashSet::new();
    assert!(claim(&mut ids, 4));
    assert!(!claim(&mut ids, 4));
    assert!(claim(&mut ids, 5));
    assert_eq!(ids.len(), 2);
    release(&mut ids, 4);
    assert!(!ids.contains(&4));
    assert!(claim(&mut ids, 4));
}

#[test]
fn issued_identities_are_fresh() {
    let mut ids = HashSet::new();
    let mut seen = Vec::new();
    for n in 0..1000 {
        assert_eq!(ids.len(), n);
        let before = ids.clone();
        let id = get_id(&mut ids);
        assert!(!before.contains(&id));
        assert!(ids.contains(&id));
        seen.push(id);
    }
    let distinct: HashSet<u64> = seen.iter().copied().collect();
    assert_eq!(distinct.len(), 1000);
}

#[test]
fn new_runtime_is_idle() {
    let rt: Runtime<u8> = Runtime::new(TRAMPOLINE);
    assert!(!rt.is_initialized());
    assert_eq!(rt.runnable(), 0);
    assert_eq!(rt.blocked(), 0);
    assert!(!rt.is_live(0));
    assert!(!rt.has_message(0));
}

#[test]
fn first_thread_runs_alone() {
    let mut rt: Runtime<u8> = Runtime::new(TRAMPOLINE);
    let a = spawn_from_main(&mut rt, 1, stack_at(0));
    assert!(rt.is_initialized());
    assert_eq!(rt.runnable(), 1);
    assert_eq!(rt.current_id(), a);
    assert_eq!(rt.current().entry, 1);
    assert_eq!(rt.current().stack, stack_at(0));
    assert_eq!(rt.current().regs, Registers::new(stack_at(0).top(), TRAMPOLINE));
    assert!(rt.is_live(a));
    // Alone in the queue, a yield switches nowhere.
    assert_eq!(schedule(&mut rt), Switch::Stay);
    assert_eq!(rt.current_id(), a);
}

#[test]
fn spawned_threads_have_distinct_identities() {
    let mut rt: Runtime<u8> = Runtime::new(TRAMPOLINE);
    let first = spawn_from_main(&mut rt, 0, stack_at(0));
    let mut ids = HashSet::new();
    ids.insert(first);
    for n in 1..200u64 {
        let Spawned { id, .. } = spawn(&mut rt, 0, stack_at(n));
        assert!(ids.insert(id), "identity issued twice while live");
        assert!(rt.is_live(id));
    }
    assert_eq!(rt.runnable(), 200);
    for id in ids {
        assert!(rt.is_live(id));
    }
}

#[test]
fn spawn_yields_to_the_next_in_line() {
    let mut rt: Runtime<u8> = Runtime::new(TRAMPOLINE);
    let a = spawn_from_main(&mut rt, 0, stack_at(0));
    // With nobody else runnable the new thread is next.
    let Spawned { id: b, switch } = spawn(&mut rt, 1, stack_at(1));
    assert_eq!(switch, Switch::To { save: a, next: b });
    assert_eq!(rt.current_id(), b);
    // Queue is [b, a]; b spawns c and a is next, c waits behind a.
    let Spawned { id: c, switch } = spawn(&mut rt, 2, stack_at(2));
    assert_eq!(switch, Switch::To { save: b, next: a });
    assert_eq!(rt.current_id(), a);
    assert_eq!(schedule(&mut rt), Switch::To { save: a, next: c });
    assert_eq!(schedule(&mut rt), Switch::To { save: c, next: b });
    assert_eq!(schedule(&mut rt), Switch::To { save: b, next: a });
    assert_eq!(rt.runnable(), 3);
}

#[test]
fn message_is_delivered_in_order_after_yields() {
    let mut rt: Runtime<u8> = Runtime::new(TRAMPOLINE);
    let a = spawn_from_main(&mut rt, 0, stack_at(0));
    let Spawned { id: b, .. } = spawn(&mut rt, 1, stack_at(1));
    // b runs and sends three messages to a, yielding each time.
    assert_eq!(rt.current_id(), b);
    assert_eq!(send(&mut rt, a, 10), Switch::To { save: b, next: a });
    assert_eq!(schedule(&mut rt), Switch::To { save: a, next: b });
    assert_eq!(send(&mut rt, a, 20), Switch::To { save: b, next: a });
    assert_eq!(schedule(&mut rt), Switch::To { save: a, next: b });
    assert_eq!(send(&mut rt, a, 30), Switch::To { save: b, next: a });
    assert_eq!(rt.current_id(), a);
    assert_eq!(recv(&mut rt), Recv::Message(10));
    assert_eq!(recv(&mut rt), Recv::Message(20));
    assert_eq!(recv(&mut rt), Recv::Message(30));
    assert!(!rt.has_message(a));
}

#[test]
fn receiver_blocks_and_is_woken_by_send() {
    let mut rt: Runtime<u8> = Runtime::new(TRAMPOLINE);
    let a = spawn_from_main(&mut rt, 0, stack_at(0));
    let Spawned { id: b, .. } = spawn(&mut rt, 1, stack_at(1));
    assert_eq!(rt.current_id(), b);
    // b has nothing to receive: it blocks and a goes on.
    assert!(!rt.would_deadlock());
    assert_eq!(recv(&mut rt), Recv::Blocked { save: b, next: a });
    assert!(rt.is_waiting(b));
    assert!(rt.is_live(b));
    assert_eq!(rt.runnable(), 1);
    assert_eq!(rt.blocked(), 1);
    assert_eq!(rt.current_id(), a);
    // a sends: b is runnable again, behind a, and a yields to it.
    assert_eq!(send(&mut rt, b, 99), Switch::To { save: a, next: b });
    assert!(!rt.is_waiting(b));
    assert_eq!(rt.current_id(), b);
    assert_eq!(rm_unused_stack(&mut rt), None);
    assert_eq!(recv_wake(&mut rt), Some(99));
    assert_eq!(recv_wake(&mut rt), None);
}

#[test]
fn message_to_an_unknown_identity_is_kept() {
    let mut rt: Runtime<u8> = Runtime::new(TRAMPOLINE);
    let a = spawn_from_main(&mut rt, 0, stack_at(0));
    let nobody = a.wrapping_add(1);
    assert_eq!(send(&mut rt, nobody, 5), Switch::Stay);
    assert!(rt.has_message(nobody));
    assert!(!rt.is_live(nobody));
}

#[test]
fn last_receiver_is_a_deadlock() {
    let mut rt: Runtime<u8> = Runtime::new(TRAMPOLINE);
    let a = spawn_from_main(&mut rt, 0, stack_at(0));
    let Spawned { id: b, .. } = spawn(&mut rt, 1, stack_at(1));
    let Spawned { id: c, .. } = spawn(&mut rt, 2, stack_at(2));
    // Queue is [a, c, b]. Everybody receives, nobody sends.
    assert_eq!(rt.current_id(), a);
    assert!(!rt.would_deadlock());
    assert_eq!(recv(&mut rt), Recv::Blocked { save: a, next: c });
    assert!(!rt.would_deadlock());
    assert_eq!(recv(&mut rt), Recv::Blocked { save: c, next: b });
    // b is the last one runnable: its receive could never return.
    assert_eq!(rt.current_id(), b);
    assert!(rt.would_deadlock());
    assert_eq!(rt.blocked(), 2);
}

#[test]
fn sole_thread_with_a_message_is_no_deadlock() {
    let mut rt: Runtime<u8> = Runtime::new(TRAMPOLINE);
    let a = spawn_from_main(&mut rt, 0, stack_at(0));
    assert!(rt.would_deadlock());
    assert_eq!(send(&mut rt, a, 1), Switch::Stay);
    assert!(!rt.would_deadlock());
    assert_eq!(recv(&mut rt), Recv::Message(1));
    assert!(rt.would_deadlock());
}

#[test]
fn exit_parks_the_stack_and_names_the_next_thread() {
    let mut rt: Runtime<u8> = Runtime::new(TRAMPOLINE);
    let a = spawn_from_main(&mut rt, 0, stack_at(0));
    let Spawned { id: b, .. } = spawn(&mut rt, 1, stack_at(1));
    // b ends first: its stack is parked, a is next.
    assert_eq!(rt.current_id(), b);
    assert_eq!(entry_point(&mut rt), Exit { reclaim: None, next: Some(a) });
    assert!(!rt.is_live(b));
    assert!(rt.is_live(a));
    // a was suspended in a yield: it collects the parked stack when resumed.
    assert_eq!(rm_unused_stack(&mut rt), Some(stack_at(1)));
    assert_eq!(rm_unused_stack(&mut rt), None);
    // a ends: nobody is left, control goes back to the host thread.
    assert_eq!(entry_point(&mut rt), Exit { reclaim: None, next: None });
    assert_eq!(rt.runnable(), 0);
    assert_eq!(finish_main(&mut rt), Some(stack_at(0)));
    assert!(!rt.is_initialized());
}

#[test]
fn exit_hands_out_a_stack_parked_before() {
    let mut rt: Runtime<u8> = Runtime::new(TRAMPOLINE);
    let a = spawn_from_main(&mut rt, 0, stack_at(0));
    let Spawned { id: b, .. } = spawn(&mut rt, 1, stack_at(1));
    let Spawned { id: c, .. } = spawn(&mut rt, 2, stack_at(2));
    // Queue is [a, c, b]: a ends, then c, which never ran and so never
    // collected a's stack, ends as well.
    assert_eq!(rt.current_id(), a);
    assert_eq!(entry_point(&mut rt), Exit { reclaim: None, next: Some(c) });
    assert_eq!(entry_point(&mut rt), Exit { reclaim: Some(stack_at(0)), next: Some(b) });
    assert_eq!(rm_unused_stack(&mut rt), Some(stack_at(2)));
    assert_eq!(rt.current_id(), b);
}

#[test]
fn a_second_run_starts_clean() {
    let mut rt: Runtime<u8> = Runtime::new(TRAMPOLINE);
    let a = spawn_from_main(&mut rt, 0, stack_at(0));
    let Spawned { id: b, .. } = spawn(&mut rt, 1, stack_at(1));
    // b blocks for good, a leaves a message nobody reads and ends.
    assert_eq!(recv(&mut rt), Recv::Blocked { save: b, next: a });
    assert_eq!(send(&mut rt, 12345, 1), Switch::Stay);
    assert_eq!(entry_point(&mut rt), Exit { reclaim: None, next: None });
    assert_eq!(finish_main(&mut rt), Some(stack_at(0)));
    assert!(!rt.is_initialized());
    assert_eq!(rt.runnable(), 0);
    assert_eq!(rt.blocked(), 0);
    assert!(!rt.is_live(a));
    assert!(!rt.is_live(b));
    assert!(!rt.is_waiting(b));
    assert!(!rt.has_message(12345));
    // The next run behaves like the first.
    let again = spawn_from_main(&mut rt, 7, stack_at(5));
    assert!(rt.is_initialized());
    assert_eq!(rt.runnable(), 1);
    assert_eq!(rt.blocked(), 0);
    assert_eq!(rt.current_id(), again);
    assert_eq!(schedule(&mut rt), Switch::Stay);
    assert_eq!(entry_point(&mut rt), Exit { reclaim: None, next: None });
    assert_eq!(finish_main(&mut rt), Some(stack_at(5)));
}

// A small machine that plays green threads on top of the runtime: each
// thread is a program counter, and the machine goes where the runtime's
// answers send it.

#[derive(Clone, Copy, PartialEq, Debug)]
enum Resume {
    Fresh,
    InYield,
    InRecv,
    Running,
}

struct Player {
    role: u8,
    peer: u64,
    turn: u64,
    sent: bool,
    resume: Resume,
    got: Vec<u64>,
    runs: u32,
    ended: u32,
}

struct Machine {
    rt: Runtime<u8>,
    players: HashMap<u64, Player>,
    counter: u64,
    rounds: u64,
    stacks_out: u64,
    released: Vec<Stack>,
}

impl Machine {
    fn new_stack(&mut self) -> Stack {
        let stack = stack_at(self.stacks_out);
        self.stacks_out += 1;
        stack
    }

    fn player(&mut self, id: u64) -> &mut Player {
        self.players.get_mut(&id).unwrap()
    }

    fn add(&mut self, id: u64, role: u8, peer: u64) {
        let fresh = Player {
            role,
            peer,
            turn: 0,
            sent: false,
            resume: Resume::Fresh,
            got: Vec::new(),
            runs: 0,
            ended: 0,
        };
        assert!(self.players.insert(id, fresh).is_none());
    }

    fn suspend(&mut self, sw: Switch, me: u64, how: Resume) {
        match sw {
            Switch::Stay => {}
            Switch::To { save, next } => {
                assert_eq!(save, me);
                assert_eq!(self.rt.current_id(), next);
                self.player(me).resume = how;
            }
        }
    }

    // Runs the executing thread up to its next switch.
    fn step(&mut self) -> bool {
        let me = self.rt.current_id();
        let role = self.rt.current().entry;
        assert_eq!(self.player(me).role, role);
        match self.player(me).resume {
            Resume::Fresh => {
                self.player(me).runs += 1;
            }
            Resume::InYield => {
                if let Some(stack) = rm_unused_stack(&mut self.rt) {
                    self.released.push(stack);
                }
            }
            Resume::InRecv => {
                if let Some(stack) = rm_unused_stack(&mut self.rt) {
                    self.released.push(stack);
                }
                let msg = recv_wake(&mut self.rt).expect("woken without a message");
                self.player(me).got.push(msg);
                self.after_recv(me);
            }
            Resume::Running => {}
        }
        self.player(me).resume = Resume::Running;
        // Role 0 spawns its partner before anything else.
        if role == 0 && self.player(me).peer == u64::MAX {
            let stack = self.new_stack();
            let Spawned { id, switch } = spawn(&mut self.rt, 1, stack);
            self.add(id, 1, me);
            self.player(me).peer = id;
            self.suspend(switch, me, Resume::InYield);
            return true;
        }
        if self.player(me).turn == self.rounds {
            self.player(me).ended += 1;
            let Exit { reclaim, next } = entry_point(&mut self.rt);
            if let Some(stack) = reclaim {
                self.released.push(stack);
            }
            return next.is_some();
        }
        // Role 0 sends, then receives; role 1 receives, then sends.
        let sends_now = if role == 0 { !self.player(me).sent } else { self.player(me).sent };
        if sends_now {
            self.counter += 1;
            let turn = self.player(me).turn;
            let peer = self.player(me).peer;
            if role == 0 {
                self.player(me).sent = true;
            } else {
                self.player(me).sent = false;
                self.player(me).turn += 1;
            }
            let sw = send(&mut self.rt, peer, turn);
            self.suspend(sw, me, Resume::InYield);
        } else {
            assert!(!self.rt.would_deadlock(), "deadlock");
            match recv(&mut self.rt) {
                Recv::Message(msg) => {
                    self.player(me).got.push(msg);
                    self.after_recv(me);
                }
                Recv::Blocked { save, next } => {
                    assert_eq!(save, me);
                    assert_eq!(self.rt.current_id(), next);
                    self.player(me).resume = Resume::InRecv;
                }
            }
        }
        true
    }

    fn after_recv(&mut self, me: u64) {
        let p = self.player(me);
        if p.role == 0 {
            p.sent = false;
            p.turn += 1;
        } else {
            p.sent = true;
        }
    }
}

fn play(rounds: u64) -> Machine {
    let mut m = Machine {
        rt: Runtime::new(TRAMPOLINE),
        players: HashMap::new(),
        counter: 0,
        rounds,
        stacks_out: 0,
        released: Vec::new(),
    };
    let stack = m.new_stack();
    let a = spawn_from_main(&mut m.rt, 0, stack);
    m.add(a, 0, u64::MAX);
    while m.step() {}
    if let Some(stack) = finish_main(&mut m.rt) {
        m.released.push(stack);
    }
    m
}

#[test]
fn ping_pong_counts_every_turn() {
    let rounds = 100_000;
    let m = play(rounds);
    assert_eq!(m.counter, 200_000);
    assert!(!m.rt.is_initialized());
    assert_eq!(m.rt.runnable(), 0);
    assert_eq!(m.rt.blocked(), 0);
    assert_eq!(m.players.len(), 2);
    let expected: Vec<u64> = (0..rounds).collect();
    for (id, p) in m.players.iter() {
        // Each side received the other's messages in the order sent.
        assert_eq!(p.got, expected);
        // Each function was started once and ran to its end once.
        assert_eq!(p.runs, 1);
        assert_eq!(p.ended, 1);
        assert!(!m.rt.is_live(*id));
    }
    // Both stacks came back for release, each once.
    assert_eq!(m.released.len(), 2);
    assert_ne!(m.released[0], m.released[1]);
}

#[test]
fn ping_pong_with_no_rounds_just_ends() {
    let m = play(0);
    assert_eq!(m.counter, 0);
    assert_eq!(m.released.len(), 2);
    for p in m.players.values() {
        assert_eq!(p.runs, 1);
        assert_eq!(p.ended, 1);
    }
}

#[test]
fn saved_registers_can_be_overwritten_in_place() {
    let stack = Stack::new(0x30000, 16384).unwrap();
    let mut ctx = Context::new(5u8, stack, 77, TRAMPOLINE);
    {
        let regs = ctx.get_regs_mut();
        assert_eq!(*regs, Registers::new(0x34000, TRAMPOLINE));
        regs.rbx = 11;
        regs.rsp = 0x33ff0;
    }
    assert_eq!(ctx.get_regs().rbx, 11);
    assert_eq!(ctx.get_regs().rsp, 0x33ff0);
    assert_eq!(ctx.get_regs().rdx, TRAMPOLINE);
    assert_eq!(ctx.id, 77);
    assert_eq!(ctx.stack, stack);
    assert_eq!(ctx.entry, 5);
}
