use txn_process::process::{
    Command, CommandKind, Context, ProcessResult, FORWARD_MIN_MUTATIONS_NUM, extract_lock_from_result, process_write_impl,
};
use txn_process::store::{Statistics, Store};
use txn_process::types::{Error, LockInfo, Modify, Mutation, Options};

fn prewrite(
    engine: &mut Store,
    statistics: &mut Statistics,
    mutations: Vec<Mutation>,
    primary: Vec<u8>,
    start_ts: u64,
) -> Result<(), Error> {
    let cmd = Command {
        ctx: Context::new(0),
        kind: CommandKind::Prewrite { mutations, primary, start_ts, options: Options::default() },
    };
    let ret = process_write_impl(cmd, engine, Some(false), statistics)?;
    if let ProcessResult::MultiRes { results } = &ret.pr {
        if !results.is_empty() {
            let info = LockInfo { primary_lock: vec![], lock_version: 0, key: vec![], lock_ttl: 0, txn_size: 0 };
            return Err(Error::KeyIsLocked(info));
        }
    }
    engine.write_batch(ret.to_be_write);
    Ok(())
}

fn commit(
    engine: &mut Store,
    statistics: &mut Statistics,
    keys: Vec<Vec<u8>>,
    lock_ts: u64,
    commit_ts: u64,
) -> Result<(), Error> {
    let cmd = Command { ctx: Context::new(0), kind: CommandKind::Commit { keys, lock_ts, commit_ts } };
    let ret = process_write_impl(cmd, engine, Some(false), statistics)?;
    engine.write_batch(ret.to_be_write);
    Ok(())
}

#[test]
fn test_extract_lock_from_result() {
    let raw_key = b"key".to_vec();
    let ts = 100;
    let info = LockInfo { primary_lock: vec![], lock_version: ts, key: raw_key.clone(), lock_ttl: 100, txn_size: 0 };
    let case = Error::KeyIsLocked(info);
    let lock = extract_lock_from_result(&Err(case));
    assert_eq!(lock.ts, ts);
    assert_eq!(lock.hash, farmhash::fingerprint64(&raw_key));
}

fn inner_test_prewrite_skip_constraint_check(pri_key_number: u8, write_num: usize) {
    let mut mutations = Vec::default();
    let pri_key = &[pri_key_number];
    for i in 0..write_num {
        mutations.push(Mutation::Insert(vec![i as u8], b"100".to_vec()));
    }
    let mut statistic = Statistics::new();
    let mut engine = Store::new();
    prewrite(
        &mut engine,
        &mut statistic,
        vec![Mutation::Put(vec![pri_key_number], b"100".to_vec())],
        pri_key.to_vec(),
        99,
    )
    .unwrap();
    assert_eq!(1, statistic.write.seek);
    let e = prewrite(&mut engine, &mut statistic, mutations.clone(), pri_key.to_vec(), 100).err().unwrap();
    assert_eq!(2, statistic.write.seek);
    match e {
        Error::KeyIsLocked(_) => (),
        _ => panic!("error type not match"),
    }
    commit(&mut engine, &mut statistic, vec![vec![pri_key_number]], 99, 102).unwrap();
    assert_eq!(2, statistic.write.seek);
    let e = prewrite(&mut engine, &mut statistic, mutations.clone(), pri_key.to_vec(), 101).err().unwrap();
    match e {
        Error::WriteConflict { .. } => (),
        _ => panic!("error type not match"),
    }
    let e = prewrite(&mut engine, &mut statistic, mutations.clone(), pri_key.to_vec(), 104).err().unwrap();
    match e {
        Error::AlreadyExist { .. } => (),
        _ => panic!("error type not match"),
    }

    statistic.write.seek = 0;
    engine.apply(Modify::DeleteWrite(vec![pri_key_number], 102));
    prewrite(&mut engine, &mut statistic, mutations.clone(), pri_key.to_vec(), 104).unwrap();
    // All keys are prewritten with a single seek.
    assert_eq!(1, statistic.write.seek);
    let keys: Vec<Vec<u8>> = mutations.iter().map(|m| m.key().clone()).collect();
    commit(&mut engine, &mut statistic, keys.clone(), 104, 105).unwrap();
    for k in keys {
        let v = engine.get_write(&k, 105);
        assert!(v.is_some());
    }
}

#[test]
fn test_prewrite_skip_constraint_check() {
    inner_test_prewrite_skip_constraint_check(0, FORWARD_MIN_MUTATIONS_NUM + 1);
    inner_test_prewrite_skip_constraint_check(5, FORWARD_MIN_MUTATIONS_NUM + 1);
    inner_test_prewrite_skip_constraint_check(FORWARD_MIN_MUTATIONS_NUM as u8, FORWARD_MIN_MUTATIONS_NUM + 1);
}
