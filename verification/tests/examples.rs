use std::collections::HashSet;

use database::byteset::ByteSet;
use database::list::ValueList;
use database::score::Score;
use database::set::ValueSet;
use database::string::ValueString;
use database::zset::Bound;
use database::{Database, Value};

fn score(number: f64) -> Score {
    Score::new(number.to_bits(), format!("{}", number).into_bytes()).unwrap()
}

fn sum(a: &Score, b: &Score) -> Score {
    score(f64::from_bits(a.bits) + f64::from_bits(b.bits))
}

fn add(value: &mut Value, number: f64, member: u8, nx: bool, xx: bool, ch: bool, incr: bool) -> bool {
    value.zadd(score(number), vec![member], nx, xx, ch, incr, sum).unwrap()
}

fn one_two_three() -> Value {
    let mut val = Value::Nil;
    for n in 1u8..4 {
        add(&mut val, n as f64, n, false, false, false, false);
    }
    val
}

fn hash_set(items: Vec<Vec<u8>>) -> HashSet<Vec<u8>> {
    items.into_iter().collect()
}

fn sadd_all(value: &mut Value, items: &[u8]) {
    for item in items {
        value.sadd(vec![*item], 3).unwrap();
    }
}

#[test]
fn example_kinds() {
    assert!(Value::Nil.is_nil());
    assert!(!Value::String(ValueString::Integer(1)).is_nil());
    assert!(!Value::Nil.is_string());
    assert!(Value::String(ValueString::Integer(1)).is_string());
    assert!(!Value::Nil.is_list());
    assert!(Value::List(ValueList::new()).is_list());
    assert!(!Value::Nil.is_set());
    assert!(Value::PlainSet(ValueSet::new()).is_set());
}

#[test]
fn example_set_and_get() {
    let mut val = Value::Nil;
    assert_eq!(val.get().unwrap(), Vec::<u8>::new());
    val.set(vec![1, 245, 3]).unwrap();
    assert_eq!(val.get().unwrap(), vec![1, 245, 3]);
    assert!(Value::List(ValueList::new()).get().is_err());
}

#[test]
fn example_strlen() {
    let mut val = Value::Nil;
    assert_eq!(val.strlen().unwrap(), 0);
    val.set(vec![1, 245, 3]).unwrap();
    assert_eq!(val.strlen().unwrap(), 3);
}

#[test]
fn example_append() {
    let mut val = Value::Nil;
    assert_eq!(val.append(vec![1, 2, 3]).unwrap(), 3);
    assert_eq!(val.append(vec![4, 5, 6]).unwrap(), 6);
}

#[test]
fn example_incr() {
    let mut val = Value::Nil;
    assert_eq!(val.incr(3).unwrap(), 3);
    assert_eq!(val.incr(3).unwrap(), 6);
    assert_eq!(val.get().unwrap(), b"6".to_vec());
}

#[test]
fn example_getrange() {
    let mut val = Value::Nil;
    assert_eq!(val.getrange(0, -1).unwrap(), b"".to_vec());
    val.set(b"foobarbaz".to_vec()).unwrap();
    assert_eq!(val.getrange(3, -4).unwrap(), b"bar".to_vec());
    assert_eq!(val.getrange(10, 1).unwrap(), b"".to_vec());
}

#[test]
fn example_setrange() {
    let mut val = Value::Nil;
    assert_eq!(val.setrange(1, vec![1, 2]).unwrap(), 3);
    assert_eq!(val.get().unwrap(), vec![0, 1, 2]);
    assert_eq!(val.setrange(-1, vec![100, 101]).unwrap(), 4);
    assert_eq!(val.get().unwrap(), vec![0, 1, 100, 101]);
}

#[test]
fn example_setbit() {
    let mut val = Value::Nil;
    assert_eq!(val.setbit(0, true).unwrap(), false);
    assert_eq!(val.get().unwrap(), vec![128]);
}

#[test]
fn example_getbit() {
    let mut val = Value::Nil;
    assert_eq!(val.getbit(0).unwrap(), false);
    val.setbit(0, true).unwrap();
    assert_eq!(val.getbit(1).unwrap(), false);
    assert_eq!(val.getbit(0).unwrap(), true);
}

#[test]
fn example_push() {
    let mut val = Value::Nil;
    assert_eq!(val.push(vec![1], true).unwrap(), 1);
    assert_eq!(val.push(vec![2], true).unwrap(), 2);
    assert_eq!(val.push(vec![0], false).unwrap(), 3);
    assert_eq!(val.lrange(0, -1).unwrap(), vec![&vec![0], &vec![1], &vec![2]]);
}

#[test]
fn example_pop() {
    let mut val = Value::Nil;
    val.push(vec![1], true).unwrap();
    val.push(vec![2], true).unwrap();
    val.push(vec![3], true).unwrap();
    assert_eq!(val.pop(true).unwrap(), Some(vec![3]));
    assert_eq!(val.pop(false).unwrap(), Some(vec![1]));
    assert_eq!(val.pop(true).unwrap(), Some(vec![2]));
    assert_eq!(val.pop(true).unwrap(), None);
}

#[test]
fn example_lindex() {
    let mut val = Value::Nil;
    val.push(vec![1], true).unwrap();
    val.push(vec![2], true).unwrap();
    assert_eq!(val.lindex(0).unwrap(), Some(&vec![1]));
    assert_eq!(val.lindex(1).unwrap(), Some(&vec![2]));
    assert_eq!(val.lindex(2).unwrap(), None);
}

#[test]
fn example_linsert() {
    let mut val = Value::Nil;
    val.push(vec![1], true).unwrap();
    val.push(vec![3], true).unwrap();
    assert_eq!(val.linsert(true, vec![3], vec![2]).unwrap(), Some(3));
    assert_eq!(val.linsert(true, vec![5], vec![4]).unwrap(), None);
    assert_eq!(val.lrange(0, -1).unwrap(), vec![&vec![1], &vec![2], &vec![3]]);
}

#[test]
fn example_llen() {
    let mut val = Value::Nil;
    assert_eq!(val.llen().unwrap(), 0);
    val.push(vec![1], true).unwrap();
    assert_eq!(val.llen().unwrap(), 1);
    val.push(vec![2], true).unwrap();
    assert_eq!(val.llen().unwrap(), 2);
}

#[test]
fn example_lrange() {
    let mut val = Value::Nil;
    val.push(vec![1], true).unwrap();
    val.push(vec![2], true).unwrap();
    val.push(vec![3], true).unwrap();
    assert_eq!(val.lrange(1, 1).unwrap(), vec![&vec![2]]);
    assert_eq!(val.lrange(1, -1).unwrap(), vec![&vec![2], &vec![3]]);
}

#[test]
fn example_lrem() {
    let mut val = Value::Nil;
    assert_eq!(val.lrem(false, 2, vec![3]).unwrap(), 0);
    for item in [2u8, 3, 2, 1, 3, 3] {
        val.push(vec![item], true).unwrap();
    }
    assert_eq!(val.lrem(false, 2, vec![3]).unwrap(), 2);
    assert_eq!(val.lrange(0, -1).unwrap(), vec![&vec![2], &vec![3], &vec![2], &vec![1]]);
    assert_eq!(val.lrem(true, 1, vec![2]).unwrap(), 1);
    assert_eq!(val.lrange(0, -1).unwrap(), vec![&vec![3], &vec![2], &vec![1]]);
    assert_eq!(val.lrem(true, 1, vec![4]).unwrap(), 0);
    assert_eq!(val.lrange(0, -1).unwrap(), vec![&vec![3], &vec![2], &vec![1]]);
}

#[test]
fn example_lset() {
    let mut val = Value::Nil;
    val.push(vec![1], true).unwrap();
    val.push(vec![3], true).unwrap();
    val.push(vec![3], true).unwrap();
    val.lset(1, vec![2]).unwrap();
    assert_eq!(val.lrange(0, -1).unwrap(), vec![&vec![1], &vec![2], &vec![3]]);
}

#[test]
fn example_ltrim() {
    let mut val = Value::Nil;
    for item in 1u8..5 {
        val.push(vec![item], true).unwrap();
    }
    val.ltrim(1, -2).unwrap();
    assert_eq!(val.lrange(0, -1).unwrap(), vec![&vec![2], &vec![3]]);
}

#[test]
fn example_sadd() {
    let mut val = Value::Nil;
    assert_eq!(val.sadd(vec![1], 3).unwrap(), true);
    assert_eq!(val.sadd(vec![2], 3).unwrap(), true);
    assert_eq!(val.sadd(vec![3], 3).unwrap(), true);
    assert_eq!(val.sadd(vec![1], 3).unwrap(), false);
}

#[test]
fn example_srem() {
    let mut val = Value::Nil;
    assert_eq!(val.srem(&vec![0]).unwrap(), false);
    sadd_all(&mut val, &[1, 2, 3]);
    assert_eq!(val.srem(&vec![3]).unwrap(), true);
    assert_eq!(val.srem(&vec![3]).unwrap(), false);
    assert_eq!(val.srem(&vec![4]).unwrap(), false);
}

#[test]
fn example_sismember() {
    let mut val = Value::Nil;
    assert_eq!(val.sismember(&vec![0]).unwrap(), false);
    sadd_all(&mut val, &[1, 2, 3]);
    assert_eq!(val.sismember(&vec![1]).unwrap(), true);
    assert_eq!(val.sismember(&vec![4]).unwrap(), false);
}

#[test]
fn example_scard() {
    let mut val = Value::Nil;
    assert_eq!(val.scard().unwrap(), 0);
    val.sadd(vec![1], 3).unwrap();
    assert_eq!(val.scard().unwrap(), 1);
    val.sadd(vec![2], 3).unwrap();
    assert_eq!(val.scard().unwrap(), 2);
}

#[test]
fn example_smembers() {
    let mut val = Value::Nil;
    sadd_all(&mut val, &[1, 2, 3]);
    assert_eq!(hash_set(val.smembers().unwrap()), hash_set(vec![vec![1], vec![2], vec![3]]));
}

#[test]
fn example_srandmember() {
    let mut val = Value::Nil;
    sadd_all(&mut val, &[1, 2, 3]);
    let elements = val.srandmember(10, false).unwrap();
    assert_eq!(elements.len(), 3);
    assert_eq!(hash_set(elements), hash_set(vec![vec![1], vec![2], vec![3]]));
    assert_eq!(val.srandmember(10, true).unwrap().len(), 10);
}

#[test]
fn example_spop() {
    let mut val = Value::Nil;
    sadd_all(&mut val, &[1, 2, 3]);
    let elements1 = val.spop(2).unwrap();
    assert_eq!(elements1.len(), 2);
    let mut set1 = hash_set(elements1);
    let elements2 = val.spop(10).unwrap();
    assert_eq!(elements2.len(), 1);
    set1.extend(elements2.into_iter());
    assert_eq!(set1, hash_set(vec![vec![1], vec![2], vec![3]]));
}

#[test]
fn example_sdiff() {
    let mut val1 = Value::Nil;
    sadd_all(&mut val1, &[1, 2, 3]);
    let mut val2 = Value::Nil;
    sadd_all(&mut val2, &[1]);
    let mut val3 = Value::Nil;
    sadd_all(&mut val3, &[2]);
    assert_eq!(val1.sdiff(&vec![&val2, &val3]).unwrap().to_vec(), vec![vec![3]]);
}

#[test]
fn example_sinter() {
    let mut val1 = Value::Nil;
    sadd_all(&mut val1, &[1, 2, 3]);
    let mut val2 = Value::Nil;
    sadd_all(&mut val2, &[1, 2]);
    let mut val3 = Value::Nil;
    sadd_all(&mut val3, &[1, 3]);
    assert_eq!(val1.sinter(&vec![&val2, &val3]).unwrap().to_vec(), vec![vec![1]]);
}

#[test]
fn example_sunion() {
    let mut val1 = Value::Nil;
    sadd_all(&mut val1, &[1]);
    let mut val2 = Value::Nil;
    sadd_all(&mut val2, &[1, 2]);
    let mut val3 = Value::Nil;
    sadd_all(&mut val3, &[1, 3]);
    assert_eq!(val1.sunion(&vec![&val2, &val3]).unwrap().to_vec(), vec![vec![1], vec![2], vec![3]]);
}

#[test]
fn example_sunion_of_nothing_and_a_set() {
    let mut val2 = Value::Nil;
    val2.sadd(vec![1], 3).unwrap();
    assert_eq!(Value::Nil.sunion(&vec![&val2]).unwrap().to_vec(), vec![vec![1]]);
}

#[test]
fn example_create_set() {
    let mut val1 = Value::Nil;
    val1.create_set(ByteSet::from_vec(vec![vec![1], vec![2], vec![3]]));
    assert_eq!(val1.scard().unwrap(), 3);
}

#[test]
fn example_zrem() {
    let mut val = Value::Nil;
    assert_eq!(val.zrem(vec![1]).unwrap(), false);
    let mut val = one_two_three();
    assert_eq!(val.zrem(vec![1]).unwrap(), true);
    assert_eq!(val.zrem(vec![1]).unwrap(), false);
    assert_eq!(val.zcard().unwrap(), 2);
}

#[test]
fn example_zadd() {
    let mut val = Value::Nil;
    assert_eq!(add(&mut val, 1.0, 1, false, false, false, false), true);
    assert_eq!(val.zscore(vec![1]).unwrap(), Some(&score(1.0)));
}

#[test]
fn example_zadd_only_new() {
    let mut val = Value::Nil;
    assert_eq!(add(&mut val, 1.0, 1, true, false, false, false), true);
    assert_eq!(val.zscore(vec![1]).unwrap(), Some(&score(1.0)));
    assert_eq!(add(&mut val, 2.0, 1, true, false, false, false), false);
    assert_eq!(val.zscore(vec![1]).unwrap(), Some(&score(1.0)));
}

#[test]
fn example_zadd_only_present() {
    let mut val = Value::Nil;
    assert_eq!(add(&mut val, 1.0, 1, false, true, false, false), false);
    assert_eq!(val.zscore(vec![1]).unwrap(), None);
    assert_eq!(add(&mut val, 1.0, 1, false, false, false, false), true);
    assert_eq!(add(&mut val, 2.0, 1, false, true, false, false), false);
    assert_eq!(val.zscore(vec![1]).unwrap(), Some(&score(2.0)));
}

#[test]
fn example_zadd_changed() {
    let mut val = Value::Nil;
    assert_eq!(add(&mut val, 1.0, 1, false, false, true, false), true);
    assert_eq!(add(&mut val, 2.0, 1, false, false, true, false), true);
    assert_eq!(val.zscore(vec![1]).unwrap(), Some(&score(2.0)));
}

#[test]
fn example_zadd_incr() {
    let mut val = Value::Nil;
    assert_eq!(add(&mut val, 1.0, 1, false, false, false, true), true);
    assert_eq!(add(&mut val, 1.0, 1, false, false, false, true), false);
    assert_eq!(val.zscore(vec![1]).unwrap(), Some(&score(2.0)));
}

#[test]
fn example_zcard() {
    let mut val = Value::Nil;
    assert_eq!(val.zcard().unwrap(), 0);
    add(&mut val, 1.0, 1, false, false, false, false);
    assert_eq!(val.zcard().unwrap(), 1);
    add(&mut val, 2.0, 2, false, false, false, false);
    assert_eq!(val.zcard().unwrap(), 2);
}

#[test]
fn example_zscore() {
    let mut val = Value::Nil;
    assert_eq!(val.zscore(vec![1]).unwrap(), None);
    add(&mut val, 1.0, 1, false, false, false, false);
    assert_eq!(val.zscore(vec![1]).unwrap(), Some(&score(1.0)));
}

#[test]
fn example_zincrby() {
    let mut val = Value::Nil;
    assert_eq!(val.zincrby(score(1.0), vec![1], sum).unwrap(), score(1.0));
    assert_eq!(val.zincrby(score(1.0), vec![1], sum).unwrap(), score(2.0));
}

#[test]
fn example_zcount() {
    assert_eq!(Value::Nil.zcount(Bound::Unbounded, Bound::Unbounded).unwrap(), 0);
    let val = one_two_three();
    assert_eq!(val.zcount(Bound::Included(score(2.0)), Bound::Excluded(score(3.0))).unwrap(), 1);
    assert_eq!(val.zcount(Bound::Unbounded, Bound::Unbounded).unwrap(), 3);
}

#[test]
fn example_zrange() {
    let val = one_two_three();
    assert_eq!(val.zrange(0, -1, false, false).unwrap(), vec![vec![1], vec![2], vec![3]]);
    assert_eq!(
        val.zrange(0, -1, true, false).unwrap(),
        vec![vec![1], b"1".to_vec(), vec![2], b"2".to_vec(), vec![3], b"3".to_vec()]
    );
    assert_eq!(val.zrange(0, 0, false, false).unwrap(), vec![vec![1]]);
    assert_eq!(val.zrange(0, 1, false, true).unwrap(), vec![vec![3], vec![2]]);
}

#[test]
fn example_zrangebyscore() {
    let val = one_two_three();
    assert_eq!(
        val.zrangebyscore(Bound::Included(score(2.0)), Bound::Unbounded, true, 0, 100, false).unwrap(),
        vec![vec![2], b"2".to_vec(), vec![3], b"3".to_vec()]
    );
    assert_eq!(
        val.zrangebyscore(Bound::Unbounded, Bound::Included(score(2.0)), false, 0, 1, true).unwrap(),
        vec![vec![3]]
    );
}

#[test]
fn example_zrank() {
    let val = one_two_three();
    assert_eq!(val.zrank(vec![1]).unwrap(), Some(0));
    assert_eq!(val.zrank(vec![2]).unwrap(), Some(1));
    assert_eq!(val.zrank(vec![3]).unwrap(), Some(2));
    assert_eq!(val.zrank(vec![4]).unwrap(), None);
}

#[test]
fn example_dump() {
    let mut val = Value::Nil;
    val.set(vec![1, 2, 3]).unwrap();
    let mut serialized = vec![];
    assert_eq!(val.dump(&mut serialized).unwrap(), 15);
    assert_eq!(serialized, vec![0, 3, 1, 2, 3, 7, 0, 229, 221, 166, 143, 248, 97, 121, 255]);
}

#[test]
fn example_database_get() {
    let mut db = Database::mock();
    assert_eq!(db.get(0, &vec![1]), None);
    db.get_or_create(0, &vec![1]).set(vec![1]).unwrap();
    let mut value = Value::Nil;
    value.set(vec![1]).unwrap();
    assert_eq!(db.get(0, &vec![1]), Some(&value));
}
