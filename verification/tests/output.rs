use std::cell::RefCell;

use fs2db::output::sync::save_many as save_all;
use fs2db::output::transaction::{save_many, Transaction};

#[test]
fn the_counts_of_the_saves_are_summed() {
    let r: Result<u64, String> = save_all(vec![1u64, 2, 3], |x| Ok(x * 10));
    assert_eq!(r, Ok(60));
}

#[test]
fn no_input_saves_nothing() {
    let r: Result<u64, String> = save_all(Vec::<u8>::new(), |_| Ok(5));
    assert_eq!(r, Ok(0));
}

#[test]
fn the_first_failed_save_ends_the_run() {
    let seen = RefCell::new(vec![]);
    let r: Result<u64, String> = save_all(vec![1u64, 2, 3, 4], |x| {
        seen.borrow_mut().push(x);
        if x == 3 {
            Err(format!("cannot save {x}"))
        } else {
            Ok(1)
        }
    });
    assert_eq!(r, Err("cannot save 3".to_string()));
    assert_eq!(*seen.borrow(), vec![1, 2, 3]);
}

#[test]
fn an_error_among_the_inputs_ends_the_run() {
    let seen = RefCell::new(vec![]);
    let saver = |x: u64| -> Result<u64, String> {
        seen.borrow_mut().push(x);
        Ok(2)
    };
    let r = save_many(vec![Ok(1), Ok(2), Err("torn".to_string()), Ok(4)], &saver);
    assert_eq!(r, Err("torn".to_string()));
    assert_eq!(*seen.borrow(), vec![1, 2]);
    let r = save_many(vec![Ok(1), Ok(2), Ok(4)], &saver);
    assert_eq!(r, Ok(6));
}

struct Tx<'a> {
    saved: &'a RefCell<Vec<u32>>,
    committed: &'a RefCell<bool>,
    commit_fails: bool,
}

impl<'a> Transaction for Tx<'a> {
    type Input = u32;
    type Error = String;

    fn commit(self) -> Result<(), String> {
        if self.commit_fails {
            return Err("no commit".to_string());
        }
        *self.committed.borrow_mut() = true;
        Ok(())
    }

    fn save(&self, i: u32) -> Result<u64, String> {
        if i == 0 {
            return Err("zero".to_string());
        }
        self.saved.borrow_mut().push(i);
        Ok(1)
    }
}

#[test]
fn a_transaction_is_committed_after_the_last_save() {
    let saved = RefCell::new(vec![]);
    let committed = RefCell::new(false);
    let tx = Tx { saved: &saved, committed: &committed, commit_fails: false };
    assert_eq!(tx.save_many(vec![Ok(5), Ok(6), Ok(7)]), Ok(3));
    assert_eq!(*saved.borrow(), vec![5, 6, 7]);
    assert!(*committed.borrow());
}

#[test]
fn a_transaction_with_a_failed_save_is_not_committed() {
    let saved = RefCell::new(vec![]);
    let committed = RefCell::new(false);
    let tx = Tx { saved: &saved, committed: &committed, commit_fails: false };
    assert_eq!(tx.save_many(vec![Ok(5), Ok(0), Ok(7)]), Err("zero".to_string()));
    assert_eq!(*saved.borrow(), vec![5]);
    assert!(!*committed.borrow());
}

#[test]
fn a_failed_commit_is_the_error_of_the_whole() {
    let saved = RefCell::new(vec![]);
    let committed = RefCell::new(false);
    let tx = Tx { saved: &saved, committed: &committed, commit_fails: true };
    assert_eq!(tx.save_many(vec![Ok(5)]), Err("no commit".to_string()));
}
