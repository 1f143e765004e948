use enjoin::scheduler::{Joint, Polled, Scheduler, Strand};
use std::cell::RefCell;
use std::rc::Rc;

/// One step of a scripted strand.
#[derive(Clone)]
enum Step {
    /// Writes the mark to the log.
    Work(u64),
    /// Gives `Pending` once.
    Suspend,
}

/// A strand that follows a script and then ends as told.
struct Script {
    steps: Vec<Step>,
    at: usize,
    end: Option<Polled<&'static str, &'static str>>,
    log: Rc<RefCell<Vec<u64>>>,
    polls: usize,
}

impl Strand for Script {
    type Value = &'static str;
    type Escape = &'static str;

    fn poll(&mut self) -> Polled<&'static str, &'static str> {
        self.polls += 1;
        while self.at < self.steps.len() {
            let step = self.steps[self.at].clone();
            self.at += 1;
            match step {
                Step::Work(mark) => self.log.borrow_mut().push(mark),
                Step::Suspend => return Polled::Pending,
            }
        }
        self.end.take().expect("a strand that has ended is not polled again")
    }
}

fn script(
    log: &Rc<RefCell<Vec<u64>>>,
    steps: Vec<Step>,
    end: Polled<&'static str, &'static str>,
) -> Script {
    Script { steps, at: 0, end: Some(end), log: log.clone(), polls: 0 }
}

/// `units` times: the mark, then `suspensions` suspensions.
fn units(mark: u64, units: usize, suspensions: usize) -> Vec<Step> {
    let mut steps = Vec::new();
    for _ in 0..units {
        steps.push(Step::Work(mark));
        for _ in 0..suspensions {
            steps.push(Step::Suspend);
        }
    }
    steps
}

fn run(strands: &mut Vec<Script>) -> (Joint<&'static str, &'static str>, usize) {
    let mut scheduler = Scheduler::new(strands.len());
    let mut rounds = 0;
    loop {
        rounds += 1;
        match scheduler.poll_round(strands) {
            Joint::Pending => assert!(rounds < 1000),
            done => return (done, rounds),
        }
    }
}

#[test]
fn track_poll() {
    let log = Rc::new(RefCell::new(Vec::new()));
    let mut strands = vec![
        script(&log, units(0, 10, 1), Polled::Keep("a")),
        script(&log, units(1, 10, 1), Polled::Keep("b")),
    ];
    let (joint, rounds) = run(&mut strands);
    assert_eq!(joint, Joint::Keep(vec!["a", "b"]));
    assert_eq!(rounds, 11);
    let log = log.borrow();
    assert_eq!(log.len(), 20);
    for (position, mark) in log.iter().enumerate() {
        assert_eq!(*mark, (position % 2) as u64);
    }
}

#[test]
fn track_asymmetric() {
    let log = Rc::new(RefCell::new(Vec::new()));
    let mut strands = vec![
        script(&log, units(0, 3, 1), Polled::Keep("a")),
        script(&log, units(1, 3, 2), Polled::Keep("b")),
    ];
    let (joint, rounds) = run(&mut strands);
    assert_eq!(*log.borrow(), vec![0, 1, 0, 0, 1, 1]);
    assert_eq!(joint, Joint::Keep(vec!["a", "b"]));
    assert_eq!(rounds, 7);
    // each strand was polled once in every round until it ended
    assert_eq!(strands[0].polls, 4);
    assert_eq!(strands[1].polls, 7);
}

#[test]
fn repeated_runs_give_the_same_interleaving_and_result() {
    let once = || {
        let log = Rc::new(RefCell::new(Vec::new()));
        let mut strands = vec![
            script(&log, units(5, 2, 3), Polled::Keep("x")),
            script(&log, units(6, 4, 1), Polled::Keep("y")),
            script(&log, units(7, 1, 0), Polled::Keep("z")),
        ];
        let (joint, rounds) = run(&mut strands);
        let marks = log.borrow().clone();
        (marks, joint, rounds)
    };
    let first = once();
    assert_eq!(first.0, vec![5, 6, 7, 6, 6, 5, 6]);
    assert_eq!(first.1, Joint::Keep(vec!["x", "y", "z"]));
    assert_eq!(once(), first);
    assert_eq!(once(), first);
}

#[test]
fn join_3() {
    // the values come in the order of the strands, whichever ends first
    let log = Rc::new(RefCell::new(Vec::new()));
    let mut strands = vec![
        script(&log, units(0, 1, 5), Polled::Keep("slow")),
        script(&log, vec![], Polled::Keep("at once")),
        script(&log, units(2, 1, 2), Polled::Keep("middle")),
    ];
    let (joint, rounds) = run(&mut strands);
    assert_eq!(joint, Joint::Keep(vec!["slow", "at once", "middle"]));
    assert_eq!(rounds, 6);
    assert_eq!((strands[0].polls, strands[1].polls, strands[2].polls), (6, 1, 3));
}

#[test]
fn join_1() {
    let log = Rc::new(RefCell::new(Vec::new()));
    let mut strands = vec![script(&log, vec![], Polled::Keep("only"))];
    assert_eq!(run(&mut strands), (Joint::Keep(vec!["only"]), 1));
    let mut none: Vec<Script> = Vec::new();
    assert_eq!(run(&mut none), (Joint::Keep(vec![]), 1));
}

#[test]
fn race() {
    // an exit from one strand ends the join while its sibling is suspended
    let log = Rc::new(RefCell::new(Vec::new()));
    let mut strands = vec![
        script(&log, units(0, 9, 1), Polled::Keep("never")),
        script(&log, units(1, 2, 1), Polled::Escape("break 'a 20")),
        script(&log, units(2, 9, 1), Polled::Keep("never")),
    ];
    let (joint, rounds) = run(&mut strands);
    assert_eq!(joint, Joint::Escape("break 'a 20"));
    assert_eq!(rounds, 3);
    // in the last round the strand behind the one that left was not polled
    assert_eq!((strands[0].polls, strands[1].polls, strands[2].polls), (3, 3, 2));
    assert_eq!(*log.borrow(), vec![0, 1, 2, 0, 1, 2, 0]);
}

#[test]
fn basic_try_join_fail() {
    // the second fallible step of the second strand fails: the join gives
    // that failure, and the third strand contributes nothing
    let log = Rc::new(RefCell::new(Vec::new()));
    let mut strands = vec![
        script(&log, units(0, 1, 1), Polled::Keep("hello")),
        script(&log, units(1, 2, 1), Polled::Escape("return Err(nope)")),
        script(&log, units(2, 1, 4), Polled::Keep("unused")),
    ];
    let (joint, _) = run(&mut strands);
    assert_eq!(joint, Joint::Escape("return Err(nope)"));
    assert!(strands[2].end.is_some());
}

#[test]
fn the_first_exit_in_the_order_of_the_strands_wins() {
    let log = Rc::new(RefCell::new(Vec::new()));
    let mut strands = vec![
        script(&log, units(0, 1, 1), Polled::Escape("first")),
        script(&log, units(1, 1, 1), Polled::Escape("second")),
    ];
    assert_eq!(run(&mut strands).0, Joint::Escape("first"));
    assert_eq!(strands[1].polls, 1);
}

#[test]
fn the_slots_follow_what_the_polls_give() {
    let mut scheduler: Scheduler<u64> = Scheduler::new(3);
    assert_eq!((scheduler.len(), scheduler.num_left()), (3, 3));
    assert!(scheduler.wants(0) && scheduler.wants(1) && scheduler.wants(2));
    assert_eq!(scheduler.record::<u8>(1, Polled::Pending), None);
    assert!(scheduler.wants(1));
    assert_eq!(scheduler.record::<u8>(1, Polled::Keep(11)), None);
    assert!(!scheduler.wants(1));
    assert_eq!(scheduler.num_left(), 2);
    assert_eq!(scheduler.finish(), None);
    assert_eq!(scheduler.record(2, Polled::Escape(9u8)), Some(9));
    assert_eq!(scheduler.num_left(), 2);
    assert_eq!(scheduler.record::<u8>(2, Polled::Keep(12)), None);
    assert_eq!(scheduler.record::<u8>(0, Polled::Keep(10)), None);
    assert_eq!(scheduler.num_left(), 0);
    assert_eq!(scheduler.finish(), Some(vec![10, 11, 12]));
    assert_eq!((scheduler.len(), scheduler.num_left()), (0, 0));
}
