use std::sync::mpsc::channel;

use database::byteset::ByteSet;
use database::config::Config;
use database::database::{count_successes, oversized};
use database::dbutil::{bounds, normalize_position};
use database::draw::{draw, pick};
use database::error::OperationError;
use database::glob::glob_match;
use database::intset::IntSet;
use database::lex::{compare, Order};
use database::list::ValueList;
use database::listeners::Listeners;
use database::number::{number_of_text, parse_i64, to_text};
use database::rdb::{intset_bytes, push_integer, push_length, push_slice, seal};
use database::response::Response;
use database::score::Score;
use database::set::ValueSet;
use database::string::ValueString;
use database::table::Table;
use database::zset::{Bound, ValueSortedSet};
use database::{Database, PubsubEvent, Value};

fn score(number: f64) -> Score {
    Score::new(number.to_bits(), format!("{}", number).into_bytes()).unwrap()
}

fn sum(a: &Score, b: &Score) -> Score {
    score(f64::from_bits(a.bits) + f64::from_bits(b.bits))
}

fn string(bytes: &[u8]) -> Value {
    let mut value = Value::Nil;
    value.set(bytes.to_vec()).unwrap();
    value
}

fn list(items: &[u8]) -> Value {
    let mut value = Value::Nil;
    for item in items {
        value.push(vec![*item], true).unwrap();
    }
    value
}

fn set(items: &[&[u8]]) -> Value {
    let mut value = Value::Nil;
    for item in items {
        value.sadd(item.to_vec(), 512).unwrap();
    }
    value
}

fn zset(items: &[(f64, u8)]) -> Value {
    let mut value = Value::Nil;
    for (number, member) in items {
        value.zadd(score(*number), vec![*member], false, false, false, false, sum).unwrap();
    }
    value
}

fn dumped(value: &Value) -> Vec<u8> {
    let mut out = Vec::new();
    value.dump(&mut out).unwrap();
    let size = out.len();
    out.truncate(size - 8);
    out
}

#[test]
fn wrong_type_errors_leave_values_alone() {
    let mut value = list(&[1, 2]);
    assert_eq!(value.get(), Err(OperationError::WrongTypeError));
    assert_eq!(value.strlen(), Err(OperationError::WrongTypeError));
    assert_eq!(value.append(vec![1]), Err(OperationError::WrongTypeError));
    assert_eq!(value.incr(1), Err(OperationError::WrongTypeError));
    assert_eq!(value.getrange(0, -1), Err(OperationError::WrongTypeError));
    assert_eq!(value.setrange(0, vec![1]), Err(OperationError::WrongTypeError));
    assert_eq!(value.setbit(0, true), Err(OperationError::WrongTypeError));
    assert_eq!(value.getbit(0), Err(OperationError::WrongTypeError));
    assert_eq!(value.sadd(vec![1], 10), Err(OperationError::WrongTypeError));
    assert_eq!(value.srem(&vec![1]), Err(OperationError::WrongTypeError));
    assert_eq!(value.sismember(&vec![1]), Err(OperationError::WrongTypeError));
    assert_eq!(value.scard(), Err(OperationError::WrongTypeError));
    assert_eq!(value.smembers(), Err(OperationError::WrongTypeError));
    assert_eq!(value.srandmember(1, true), Err(OperationError::WrongTypeError));
    assert_eq!(value.spop(1), Err(OperationError::WrongTypeError));
    assert_eq!(value.sdiff(&vec![]), Err(OperationError::WrongTypeError));
    assert_eq!(value.sinter(&vec![]), Err(OperationError::WrongTypeError));
    assert_eq!(value.sunion(&vec![]), Err(OperationError::WrongTypeError));
    assert_eq!(value.zrem(vec![1]), Err(OperationError::WrongTypeError));
    assert_eq!(value.zadd(score(1.0), vec![1], false, false, false, false, sum), Err(OperationError::WrongTypeError));
    assert_eq!(value.zcard(), Err(OperationError::WrongTypeError));
    assert_eq!(value.zscore(vec![1]), Err(OperationError::WrongTypeError));
    assert_eq!(value.zincrby(score(1.0), vec![1], sum), Err(OperationError::WrongTypeError));
    assert_eq!(value.zcount(Bound::Unbounded, Bound::Unbounded), Err(OperationError::WrongTypeError));
    assert_eq!(value.zrange(0, -1, false, false), Err(OperationError::WrongTypeError));
    assert_eq!(
        value.zrangebyscore(Bound::Unbounded, Bound::Unbounded, false, 0, 1, false),
        Err(OperationError::WrongTypeError)
    );
    assert_eq!(value.zrank(vec![1]), Err(OperationError::WrongTypeError));
    assert_eq!(value, list(&[1, 2]));

    let mut value = string(b"text");
    assert_eq!(value.push(vec![1], true), Err(OperationError::WrongTypeError));
    assert_eq!(value.pop(true), Err(OperationError::WrongTypeError));
    assert_eq!(value.lindex(0), Err(OperationError::WrongTypeError));
    assert_eq!(value.linsert(true, vec![1], vec![2]), Err(OperationError::WrongTypeError));
    assert_eq!(value.llen(), Err(OperationError::WrongTypeError));
    assert_eq!(value.lrange(0, -1), Err(OperationError::WrongTypeError));
    assert_eq!(value.lrem(true, 0, vec![1]), Err(OperationError::WrongTypeError));
    assert_eq!(value.lset(0, vec![1]), Err(OperationError::WrongTypeError));
    assert_eq!(value.ltrim(0, -1), Err(OperationError::WrongTypeError));
    assert_eq!(value, string(b"text"));
}

#[test]
fn values_that_are_not_there() {
    let mut nil = Value::Nil;
    assert_eq!(nil.lindex(0), Err(OperationError::WrongTypeError));
    assert_eq!(nil.ltrim(0, -1), Err(OperationError::WrongTypeError));
    assert_eq!(nil.lset(0, vec![1]), Err(OperationError::UnknownKeyError));
    assert_eq!(nil.pop(true), Ok(None));
    assert_eq!(nil.linsert(true, vec![1], vec![2]), Ok(None));
    assert_eq!(nil.lrange(0, -1).unwrap().len(), 0);
    assert_eq!(nil.smembers().unwrap().len(), 0);
    assert_eq!(nil.srandmember(5, true).unwrap().len(), 0);
    assert_eq!(nil.spop(5).unwrap().len(), 0);
    assert_eq!(nil.zrange(0, -1, true, true).unwrap().len(), 0);
    assert_eq!(nil.zrangebyscore(Bound::Unbounded, Bound::Unbounded, true, 0, 9, true).unwrap().len(), 0);
    assert_eq!(nil.zrank(vec![1]).unwrap(), None);
    assert_eq!(nil.zadd(score(1.0), vec![1], false, true, false, false, sum), Ok(false));
    let other = set(&[b"a"]);
    assert_eq!(nil.sdiff(&vec![&other]).unwrap().len(), 0);
    assert_eq!(nil.sinter(&vec![&other]).unwrap().len(), 0);
    assert_eq!(nil.sunion(&vec![&other]).unwrap().to_vec(), vec![b"a".to_vec()]);
    assert_eq!(nil.sunion(&vec![&Value::Nil]).unwrap().len(), 0);
    let mut out = vec![7u8];
    assert_eq!(nil.dump(&mut out), Ok(0));
    assert_eq!(out, vec![7u8]);
    assert_eq!(nil, Value::Nil);
}

#[test]
fn strings_that_are_numbers() {
    assert_eq!(string(b"0"), Value::String(ValueString::Integer(0)));
    assert_eq!(string(b"-15"), Value::String(ValueString::Integer(-15)));
    assert_eq!(string(b"9223372036854775807"), Value::String(ValueString::Integer(i64::MAX)));
    assert_eq!(string(b"-9223372036854775808"), Value::String(ValueString::Integer(i64::MIN)));
    assert_eq!(string(b"9223372036854775808"), Value::String(ValueString::Data(b"9223372036854775808".to_vec())));
    assert_eq!(string(b"007"), Value::String(ValueString::Data(b"007".to_vec())));
    assert_eq!(string(b"+7"), Value::String(ValueString::Data(b"+7".to_vec())));
    assert_eq!(string(b"-0"), Value::String(ValueString::Data(b"-0".to_vec())));
    assert_eq!(string(b""), Value::String(ValueString::Data(vec![])));
    assert_eq!(string(b"-15").get().unwrap(), b"-15".to_vec());
    assert_eq!(string(b"-15").strlen().unwrap(), 3);
}

#[test]
fn numbers_and_their_texts() {
    assert_eq!(to_text(-120), b"-120".to_vec());
    assert_eq!(to_text(0), b"0".to_vec());
    assert_eq!(to_text(i64::MIN), b"-9223372036854775808".to_vec());
    assert_eq!(parse_i64(&b"+42".to_vec()), Some(42));
    assert_eq!(parse_i64(&b"007".to_vec()), Some(7));
    assert_eq!(parse_i64(&b"-9223372036854775808".to_vec()), Some(i64::MIN));
    assert_eq!(parse_i64(&b"9223372036854775808".to_vec()), None);
    assert_eq!(parse_i64(&b"".to_vec()), None);
    assert_eq!(parse_i64(&b"-".to_vec()), None);
    assert_eq!(parse_i64(&b"1a".to_vec()), None);
    assert_eq!(number_of_text(&b"42".to_vec()), Some(42));
    assert_eq!(number_of_text(&b"+42".to_vec()), None);
}

#[test]
fn incr_errors() {
    let mut value = string(b"abc");
    assert_eq!(value.incr(1), Err(OperationError::ValueError));
    assert_eq!(value, string(b"abc"));
    let mut value = string(b"9223372036854775808");
    assert_eq!(value.incr(1), Err(OperationError::ValueError));
    let mut value = string(b"-9223372036854775808");
    assert_eq!(value.incr(-1), Err(OperationError::OverflowError));
    assert_eq!(value, Value::String(ValueString::Integer(i64::MIN)));
    let mut value = string(b"+5");
    assert_eq!(value.incr(2), Ok(7));
    assert_eq!(value, Value::String(ValueString::Integer(7)));
}

#[test]
fn increments_sum_up() {
    let mut one = string(b"10");
    one.incr(3).unwrap();
    one.incr(-20).unwrap();
    let mut both = string(b"10");
    both.incr(-17).unwrap();
    assert_eq!(one, both);
    assert_eq!(one.get().unwrap(), b"-7".to_vec());
}

#[test]
fn appending_twice() {
    let mut value = string(b"12");
    assert_eq!(value.append(b"34".to_vec()).unwrap(), 4);
    assert_eq!(value.append(b"5".to_vec()).unwrap(), 5);
    assert_eq!(value, Value::String(ValueString::Data(b"12345".to_vec())));
    assert_eq!(value.incr(1), Ok(12346));
    let mut value = Value::Nil;
    assert_eq!(value.append(b"34".to_vec()).unwrap(), 2);
    assert_eq!(value, Value::String(ValueString::Integer(34)));
}

#[test]
fn written_range_reads_back() {
    let mut value = string(b"hello");
    assert_eq!(value.setrange(7, b"abc".to_vec()).unwrap(), 10);
    assert_eq!(value.getrange(7, 9).unwrap(), b"abc".to_vec());
    assert_eq!(value.getrange(0, 6).unwrap(), b"hello\x00\x00".to_vec());
    assert_eq!(value.setrange(-100, b"J".to_vec()).unwrap(), 10);
    assert_eq!(value.getrange(0, 4).unwrap(), b"Jello".to_vec());
    let mut number = string(b"1234");
    assert_eq!(number.setrange(1, b"x".to_vec()).unwrap(), 4);
    assert_eq!(number.get().unwrap(), b"1x34".to_vec());
    let mut empty = Value::Nil;
    assert_eq!(empty.setrange(2, vec![]).unwrap(), 2);
    assert_eq!(empty.get().unwrap(), vec![0, 0]);
}

#[test]
fn written_bit_reads_back() {
    let mut value = string(&[0xff, 0x00]);
    for offset in 0..24usize {
        for on in [true, false] {
            let before: Vec<bool> = (0..32).map(|i| value.getbit(i).unwrap()).collect();
            assert_eq!(value.setbit(offset, on).unwrap(), before[offset]);
            for i in 0..32usize {
                assert_eq!(value.getbit(i).unwrap(), if i == offset { on } else { before[i] });
            }
        }
    }
    assert_eq!(value.strlen().unwrap(), 3);
    let mut number = string(b"1");
    assert_eq!(number.setbit(6, true).unwrap(), false);
    assert_eq!(number.get().unwrap(), b"3".to_vec());
}

#[test]
fn positions() {
    assert_eq!(normalize_position(0, 3), Ok(0));
    assert_eq!(normalize_position(-3, 3), Ok(0));
    assert_eq!(normalize_position(-4, 3), Err(false));
    assert_eq!(normalize_position(3, 3), Err(true));
    assert_eq!(normalize_position(i64::MIN, 3), Err(false));
    assert_eq!(bounds(0, -1, 5), (0, 5));
    assert_eq!(bounds(-100, 100, 5), (0, 5));
    assert_eq!(bounds(1, 3, 5), (1, 4));
    let (low, high) = bounds(3, 1, 5);
    assert_eq!(low, high);
}

#[test]
fn pushed_and_popped() {
    for right in [true, false] {
        let mut value = list(&[1, 2, 3]);
        value.push(vec![9], right).unwrap();
        assert_eq!(value.pop(right).unwrap(), Some(vec![9]));
        assert_eq!(value, list(&[1, 2, 3]));
    }
}

#[test]
fn insertion_beside_pivot() {
    let mut value = list(&[1, 2, 1]);
    assert_eq!(value.linsert(false, vec![1], vec![9]).unwrap(), Some(4));
    assert_eq!(value, list(&[1, 9, 2, 1]));
    assert_eq!(value.linsert(true, vec![1], vec![8]).unwrap(), Some(5));
    assert_eq!(value, list(&[8, 1, 9, 2, 1]));
    assert_eq!(value.linsert(true, vec![7], vec![6]).unwrap(), None);
    assert_eq!(value, list(&[8, 1, 9, 2, 1]));
}

#[test]
fn stripping_from_both_sides() {
    let all = [1u8, 2, 1, 3, 1];
    let mut value = list(&all);
    assert_eq!(value.lrem(true, 2, vec![1]).unwrap(), 2);
    assert_eq!(value, list(&[2, 3, 1]));
    let mut value = list(&all);
    assert_eq!(value.lrem(false, 2, vec![1]).unwrap(), 2);
    assert_eq!(value, list(&[1, 2, 3]));
    let mut value = list(&all);
    assert_eq!(value.lrem(false, 0, vec![1]).unwrap(), 3);
    assert_eq!(value, list(&[2, 3]));
    let mut value = list(&all);
    assert_eq!(value.lrem(true, 10, vec![1]).unwrap(), 3);
    assert_eq!(value, list(&[2, 3]));
}

#[test]
fn list_positions_out_of_bounds() {
    let mut value = list(&[1, 2]);
    assert_eq!(value.lset(2, vec![3]), Err(OperationError::OutOfBoundsError));
    assert_eq!(value.lset(-3, vec![3]), Err(OperationError::OutOfBoundsError));
    assert_eq!(value, list(&[1, 2]));
    assert_eq!(value.lset(-2, vec![3]), Ok(()));
    assert_eq!(value, list(&[3, 2]));
    value.ltrim(5, 9).unwrap();
    assert_eq!(value, Value::List(ValueList::new()));
}

#[test]
fn trimmed_list_is_its_range() {
    let mut value = list(&[1, 2, 3, 4, 5]);
    let range: Vec<Vec<u8>> = value.lrange(-4, 3).unwrap().into_iter().cloned().collect();
    value.ltrim(-4, 3).unwrap();
    let all: Vec<Vec<u8>> = value.lrange(0, -1).unwrap().into_iter().cloned().collect();
    assert_eq!(range, all);
    assert_eq!(all, vec![vec![2], vec![3], vec![4]]);
}

#[test]
fn sets_of_numbers() {
    let mut value = set(&[b"3", b"-1", b"20"]);
    assert_eq!(value.smembers().unwrap(), vec![b"-1".to_vec(), b"3".to_vec(), b"20".to_vec()]);
    assert!(matches!(value, Value::PlainSet(ValueSet::Integer(_))));
    assert_eq!(value.sismember(&b"3".to_vec()).unwrap(), true);
    assert_eq!(value.sismember(&b"+3".to_vec()).unwrap(), false);
    assert_eq!(value.srem(&b"03".to_vec()).unwrap(), false);
    assert_eq!(value.srem(&b"3".to_vec()).unwrap(), true);
    assert_eq!(value.scard().unwrap(), 2);
    assert_eq!(value.sadd(b"20".to_vec(), 0).unwrap(), false);
    assert!(matches!(value, Value::PlainSet(ValueSet::Integer(_))));
    assert_eq!(value.sadd(b"x".to_vec(), 100).unwrap(), true);
    assert!(matches!(value, Value::PlainSet(ValueSet::Data(_))));
    assert_eq!(value.smembers().unwrap(), vec![b"-1".to_vec(), b"20".to_vec(), b"x".to_vec()]);
    assert_eq!(value.srem(&b"x".to_vec()).unwrap(), true);
    assert!(matches!(value, Value::PlainSet(ValueSet::Data(_))));
}

#[test]
fn added_and_removed_member() {
    let mut value = set(&[b"a", b"b"]);
    assert_eq!(value.sadd(b"c".to_vec(), 10).unwrap(), true);
    assert_eq!(value.scard().unwrap(), 3);
    assert_eq!(value.srem(&b"c".to_vec()).unwrap(), true);
    assert_eq!(value.smembers().unwrap(), set(&[b"a", b"b"]).smembers().unwrap());
}

#[test]
fn set_algebra() {
    let one = set(&[b"1", b"2", b"3"]);
    let two = set(&[b"2", b"x"]);
    let three = set(&[b"3", b"4"]);
    let others = vec![&two, &three];
    assert_eq!(one.sdiff(&others).unwrap().to_vec(), vec![b"1".to_vec()]);
    assert_eq!(one.sinter(&others).unwrap().len(), 0);
    assert_eq!(
        one.sunion(&others).unwrap().to_vec(),
        vec![b"1".to_vec(), b"2".to_vec(), b"3".to_vec(), b"4".to_vec(), b"x".to_vec()]
    );
    let text = string(b"text");
    assert_eq!(one.sdiff(&vec![&text]), Err(OperationError::WrongTypeError));
    assert_eq!(one.sinter(&vec![&text]), Err(OperationError::WrongTypeError));
    assert_eq!(one.sunion(&vec![&text]), Err(OperationError::WrongTypeError));
    assert_eq!(one.sdiff(&vec![]).unwrap().to_vec(), one.smembers().unwrap());
}

#[test]
fn chosen_members() {
    let pool = vec![vec![1u8], vec![2], vec![3], vec![4]];
    assert_eq!(draw(pool.clone(), &vec![2, 0, 1]), vec![vec![3], vec![1], vec![4]]);
    assert_eq!(pick(&pool, &vec![2, 2, 0]), vec![vec![3], vec![3], vec![1]]);
    let mut members = ValueSet::new();
    for item in [b"10", b"20", b"30"] {
        members.sadd(item.to_vec(), 10);
    }
    assert_eq!(members.members_at(&vec![1, 1]), vec![b"20".to_vec(), b"20".to_vec()]);
    assert_eq!(members.members_drawn(&vec![1, 1]), vec![b"20".to_vec(), b"30".to_vec()]);
    assert_eq!(members.remove_drawn(&vec![1, 1]), vec![b"20".to_vec(), b"30".to_vec()]);
    assert_eq!(members.smembers(), vec![b"10".to_vec()]);
}

#[test]
fn popped_members_and_the_rest() {
    for count in 0..6usize {
        let all = set(&[b"a", b"b", b"c", b"d"]);
        let mut value = set(&[b"a", b"b", b"c", b"d"]);
        let mut popped = value.spop(count).unwrap();
        assert_eq!(popped.len(), if count < 4 { count } else { 4 });
        for member in &popped {
            assert!(!value.sismember(member).unwrap());
        }
        popped.extend(value.smembers().unwrap());
        popped.sort();
        assert_eq!(popped, all.smembers().unwrap());
    }
}

#[test]
fn random_members_vary() {
    let value = set(&[b"0", b"1", b"2", b"3", b"4", b"5", b"6", b"7", b"8", b"9"]);
    let mut drawn = value.srandmember(1000, true).unwrap();
    assert_eq!(drawn.len(), 1000);
    drawn.sort();
    drawn.dedup();
    assert_eq!(drawn.len(), 10);
    let mut some = value.srandmember(6, false).unwrap();
    some.sort();
    some.dedup();
    assert_eq!(some.len(), 6);
}

#[test]
fn byte_sets() {
    let mut items = ByteSet::from_vec(vec![b"b".to_vec(), b"a".to_vec(), b"b".to_vec(), b"".to_vec(), b"ab".to_vec()]);
    assert_eq!(items.to_vec(), vec![b"".to_vec(), b"a".to_vec(), b"ab".to_vec(), b"b".to_vec()]);
    assert!(items.contains(&b"ab".to_vec()));
    assert!(items.remove(&b"ab".to_vec()));
    assert!(!items.remove(&b"ab".to_vec()));
    assert_eq!(items.len(), 3);
    assert_eq!(compare(&b"a".to_vec(), &b"ab".to_vec()), Order::Less);
    assert_eq!(compare(&b"b".to_vec(), &b"ab".to_vec()), Order::Greater);
    assert_eq!(compare(&b"b".to_vec(), &b"b".to_vec()), Order::Equal);
    let mut numbers = IntSet::new();
    assert!(numbers.insert(5));
    assert!(numbers.insert(-5));
    assert!(!numbers.insert(5));
    assert_eq!(numbers.items, vec![-5, 5]);
    assert!(numbers.remove(5));
    assert_eq!(numbers.items, vec![-5]);
}

#[test]
fn scores() {
    assert!(Score::new(f64::NAN.to_bits(), vec![]).is_none());
    assert_eq!(score(-0.0).rank_key(), score(0.0).rank_key());
    let ascending = [f64::NEG_INFINITY, -2.5, -1.0, -f64::MIN_POSITIVE, 0.0, f64::MIN_POSITIVE, 1.0, 1.5, f64::INFINITY];
    for pair in ascending.windows(2) {
        assert!(score(pair[0]).rank_key() < score(pair[1]).rank_key());
    }
}

#[test]
fn ranking_by_score_and_member() {
    let value = zset(&[(2.0, 1), (-1.0, 9), (2.0, 0), (1.5, 5)]);
    assert_eq!(value.zrange(0, -1, false, false).unwrap(), vec![vec![9], vec![5], vec![0], vec![1]]);
    assert_eq!(value.zrange(0, -1, false, true).unwrap(), vec![vec![1], vec![0], vec![5], vec![9]]);
    for (place, member) in [9u8, 5, 0, 1].iter().enumerate() {
        assert_eq!(value.zrank(vec![*member]).unwrap(), Some(place));
        assert_eq!(value.zrange(place as i64, place as i64, false, false).unwrap(), vec![vec![*member]]);
    }
}

#[test]
fn counted_and_listed_between_ends() {
    let value = zset(&[(1.0, 1), (2.0, 2), (2.0, 3), (4.0, 4)]);
    let ends = [f64::NEG_INFINITY, 0.5, 1.0, 2.0, 3.0, 4.0, f64::INFINITY];
    for a in ends {
        for b in ends {
            for (min, max) in [
                (Bound::Included(score(a)), Bound::Included(score(b))),
                (Bound::Excluded(score(a)), Bound::Included(score(b))),
                (Bound::Included(score(a)), Bound::Excluded(score(b))),
                (Bound::Unbounded, Bound::Excluded(score(b))),
                (Bound::Included(score(a)), Bound::Unbounded),
            ] {
                let again = match &min {
                    Bound::Included(s) => Bound::Included(s.duplicate()),
                    Bound::Excluded(s) => Bound::Excluded(s.duplicate()),
                    Bound::Unbounded => Bound::Unbounded,
                };
                let again_max = match &max {
                    Bound::Included(s) => Bound::Included(s.duplicate()),
                    Bound::Excluded(s) => Bound::Excluded(s.duplicate()),
                    Bound::Unbounded => Bound::Unbounded,
                };
                let listed = value.zrangebyscore(again, again_max, false, 0, usize::MAX, false).unwrap();
                assert_eq!(value.zcount(min, max).unwrap(), listed.len());
            }
        }
    }
    assert_eq!(value.zcount(Bound::Unbounded, Bound::Unbounded).unwrap(), 4);
}

#[test]
fn pages_follow_each_other() {
    let value = zset(&[(1.0, 1), (2.0, 2), (3.0, 3), (4.0, 4), (5.0, 5)]);
    let mut pages = Vec::new();
    for offset in [0usize, 2, 4, 6] {
        pages.extend(value.zrangebyscore(Bound::Unbounded, Bound::Unbounded, false, offset, 2, true).unwrap());
    }
    assert_eq!(pages, vec![vec![5], vec![4], vec![3], vec![2], vec![1]]);
    let none = value.zrangebyscore(Bound::Unbounded, Bound::Unbounded, false, usize::MAX, usize::MAX, false).unwrap();
    assert_eq!(none.len(), 0);
}

#[test]
fn scored_and_removed_member() {
    let mut value = zset(&[(1.0, 1), (2.0, 2)]);
    value.zadd(score(1.5), vec![3], false, false, false, false, sum).unwrap();
    assert_eq!(value.zrank(vec![3]).unwrap(), Some(1));
    assert_eq!(value.zrem(vec![3]).unwrap(), true);
    assert_eq!(value.zrank(vec![3]).unwrap(), None);
    assert_eq!(value.zrank(vec![2]).unwrap(), Some(1));
    assert_eq!(value.zscore(vec![3]).unwrap(), None);
}

#[test]
fn unchanged_scores_are_no_change() {
    let mut value = zset(&[(1.0, 1)]);
    assert_eq!(value.zadd(score(1.0), vec![1], false, false, true, false, sum), Ok(false));
    assert_eq!(value.zadd(score(0.0), vec![1], false, false, true, true, sum), Ok(false));
    assert_eq!(value.zadd(score(0.5), vec![1], false, false, true, true, sum), Ok(true));
    assert_eq!(value.zadd(score(9.0), vec![1], true, false, true, true, sum), Ok(false));
    assert_eq!(value.zscore(vec![1]).unwrap(), Some(&score(1.5)));
    let mut own = ValueSortedSet::new();
    assert_eq!(own.zincrby(score(2.0), vec![1], sum), score(2.0));
    assert_eq!(own.zincrby(score(-0.5), vec![1], sum), score(1.5));
}

#[test]
fn serialized_lengths_and_numbers() {
    let mut out = Vec::new();
    assert!(push_length(&mut out, 63));
    assert!(push_length(&mut out, 64));
    assert!(push_length(&mut out, 16383));
    assert!(push_length(&mut out, 16384));
    assert_eq!(out, vec![63, 0x40, 64, 0x7f, 0xff, 0x80, 0, 0, 0x40, 0]);
    let before = out.clone();
    assert!(!push_length(&mut out, 1usize << 32));
    assert_eq!(out, before);

    let mut out = Vec::new();
    push_integer(&mut out, -1);
    push_integer(&mut out, 300);
    push_integer(&mut out, -70000);
    push_integer(&mut out, 5_000_000_000);
    assert_eq!(
        out,
        b"\xc0\xff\xc1\x2c\x01\xc2\x90\xee\xfe\xff\x0a5000000000".to_vec()
    );

    let mut out = Vec::new();
    assert!(push_slice(&mut out, &b"ab".to_vec()));
    assert_eq!(out, vec![2, 97, 98]);

    assert_eq!(intset_bytes(&vec![-1, 2]), vec![2, 0, 0, 0, 2, 0, 0, 0, 0xff, 0xff, 2, 0]);
    assert_eq!(intset_bytes(&vec![70000]), vec![4, 0, 0, 0, 1, 0, 0, 0, 0x70, 0x11, 1, 0]);
    assert_eq!(
        intset_bytes(&vec![1 << 40]),
        vec![8, 0, 0, 0, 1, 0, 0, 0, 0, 0, 0, 0, 0, 1, 0, 0]
    );
}

#[test]
fn serialized_values() {
    assert_eq!(dumped(&string(b"abc")), vec![0, 3, 97, 98, 99, 7, 0]);
    assert_eq!(dumped(&list(&[1, 2])), vec![1, 2, 1, 1, 1, 2, 7, 0]);
    assert_eq!(dumped(&set(&[b"b", b"a"])), vec![2, 2, 1, 97, 1, 98, 7, 0]);
    assert_eq!(dumped(&set(&[b"5"])), vec![11, 10, 2, 0, 0, 0, 1, 0, 0, 0, 5, 0, 7, 0]);
    assert_eq!(dumped(&zset(&[(1.5, 7)])), vec![3, 1, 1, 7, 3, 49, 46, 53, 7, 0]);
    assert_eq!(
        dumped(&zset(&[(f64::INFINITY, 7), (f64::NEG_INFINITY, 8)])),
        vec![3, 2, 1, 8, 255, 1, 7, 254, 7, 0]
    );
}

#[test]
fn serialized_lists_can_be_told_apart() {
    let mut one = Value::Nil;
    one.push(b"ab".to_vec(), true).unwrap();
    one.push(b"c".to_vec(), true).unwrap();
    let mut two = Value::Nil;
    two.push(b"a".to_vec(), true).unwrap();
    two.push(b"bc".to_vec(), true).unwrap();
    assert_eq!(dumped(&one), b"\x01\x02\x02ab\x01c\x07\x00".to_vec());
    assert_eq!(dumped(&two), b"\x01\x02\x01a\x02bc\x07\x00".to_vec());
}

#[test]
fn serialized_values_are_sealed() {
    let mut out = vec![9u8];
    assert_eq!(seal(&mut out, &vec![1, 2], 0x0102_0304_0506_0708), 10);
    assert_eq!(out, vec![9, 1, 2, 8, 7, 6, 5, 4, 3, 2, 1]);
    let mut first = Vec::new();
    let mut second = Vec::new();
    string(b"abc").dump(&mut first).unwrap();
    string(b"abd").dump(&mut second).unwrap();
    assert_eq!(first.len(), second.len());
    assert!(first[first.len() - 8..] != second[second.len() - 8..]);
    assert!(first[first.len() - 8..] != [0u8; 8]);
}

#[test]
fn score_that_cannot_be_serialized() {
    let mut value = Value::Nil;
    let long = Score::new(1.0f64.to_bits(), vec![48; 253]).unwrap();
    value.zadd(long, vec![1], false, false, false, false, sum).unwrap();
    let mut out = vec![1u8];
    assert_eq!(value.dump(&mut out), Err(OperationError::OverflowError));
    assert_eq!(out, vec![1u8]);
}

#[test]
fn glob_patterns() {
    let cases: [(&[u8], &[u8], bool); 26] = [
        (b"", b"", true),
        (b"", b"a", false),
        (b"*", b"", true),
        (b"*", b"anything", true),
        (b"a*", b"abc", true),
        (b"*c", b"abc", true),
        (b"*b*", b"abc", true),
        (b"*x*", b"abc", false),
        (b"a**c", b"abc", true),
        (b"?", b"a", true),
        (b"?", b"", false),
        (b"a?c", b"abc", true),
        (b"a?c", b"ac", false),
        (b"[abc]", b"b", true),
        (b"[abc]", b"d", false),
        (b"[^abc]", b"d", true),
        (b"[^abc]", b"a", false),
        (b"[a-c]x", b"bx", true),
        (b"[c-a]x", b"bx", true),
        (b"[a-c]x", b"dx", false),
        (b"[\\]]", b"]", true),
        (b"[ab", b"b", true),
        (b"\\*", b"*", true),
        (b"\\*", b"a", false),
        (b"news.*", b"news.sport", true),
        (b"news.*", b"new.sport", false),
    ];
    for (pattern, text, expected) in cases {
        assert_eq!(glob_match(&pattern.to_vec(), &text.to_vec()), expected, "{:?} {:?}", pattern, text);
    }
}

#[test]
fn replies_for_events() {
    let data = |s: &[u8]| Response::Data(s.to_vec());
    assert_eq!(
        PubsubEvent::Message(b"c".to_vec(), None, b"m".to_vec()).as_response(),
        Response::Array(vec![data(b"message"), data(b"c"), data(b"m")])
    );
    assert_eq!(
        PubsubEvent::Message(b"c".to_vec(), Some(b"p".to_vec()), b"m".to_vec()).as_response(),
        Response::Array(vec![data(b"message"), data(b"c"), data(b"p"), data(b"m")])
    );
    assert_eq!(
        PubsubEvent::Subscription(b"c".to_vec(), 1).as_response(),
        Response::Array(vec![data(b"subscribe"), data(b"c"), Response::Integer(1)])
    );
    assert_eq!(
        PubsubEvent::Unsubscription(b"c".to_vec(), 2).as_response(),
        Response::Array(vec![data(b"unsubscribe"), data(b"c"), Response::Integer(2)])
    );
    assert_eq!(
        PubsubEvent::PatternSubscription(b"c".to_vec(), 3).as_response(),
        Response::Array(vec![data(b"psubscribe"), data(b"c"), Response::Integer(3)])
    );
    assert_eq!(
        PubsubEvent::PatternUnsubscription(b"c".to_vec(), 4).as_response(),
        Response::Array(vec![data(b"punsubscribe"), data(b"c"), Response::Integer(4)])
    );
}

#[test]
fn expirations() {
    let mut db = Database::mock();
    let key = b"key".to_vec();
    db.get_or_create(0, &key).set(b"text".to_vec()).unwrap();
    db.set_msexpiration(0, key.clone(), 1000);
    assert_eq!(db.get_msexpiration(0, &key), Some(&1000));
    assert_eq!(db.get_at(0, &key, 999), Some(&string(b"text")));
    assert_eq!(db.get_at(0, &key, 1000), None);
    assert!(!db.is_expired_at(0, &key, 999));
    assert!(db.is_expired_at(0, &key, 1000));
    assert!(db.is_expired(0, &key));
    assert_eq!(db.get(0, &key), None);
    assert_eq!(db.get_at(1, &key, 0), None);
    assert_eq!(db.remove_msexpiration(0, &key), Some(1000));
    assert_eq!(db.remove_msexpiration(0, &key), None);
    assert_eq!(db.get_msexpiration(0, &key), None);
    assert_eq!(db.get(0, &key), Some(&string(b"text")));
}

#[test]
fn expired_keys_are_taken_out() {
    let mut db = Database::mock();
    let key = b"key".to_vec();
    db.get_or_create(0, &key).set(b"text".to_vec()).unwrap();
    db.set_msexpiration(0, key.clone(), 1000);
    assert_eq!(db.get_mut_at(0, &key, 999), Some(&mut string(b"text")));
    assert_eq!(db.get_mut_at(0, &key, 1000), None);
    assert_eq!(db.data[0].len(), 0);
    assert_eq!(db.get_msexpiration(0, &key), None);
    db.get_or_create(0, &key).set(b"again".to_vec()).unwrap();
    assert_eq!(db.get_at(0, &key, i64::MAX), Some(&string(b"again")));
    db.set_msexpiration(0, key.clone(), 1000);
    assert_eq!(db.remove_at(0, &key, 2000), None);
    assert_eq!(db.get_at(0, &key, 0), None);
    assert!(db.get_mut(0, &key).is_none());
}

#[test]
fn expired_key_that_is_created_again() {
    let mut db = Database::mock();
    let key = b"key".to_vec();
    db.get_or_create_at(0, &key, 0).set(b"text".to_vec()).unwrap();
    db.set_msexpiration(0, key.clone(), 1000);
    assert_eq!(db.get_or_create_at(0, &key, 999), &mut string(b"text"));
    assert_eq!(db.get_or_create_at(0, &key, 1000), &mut Value::Nil);
    assert_eq!(db.get_msexpiration(0, &key), Some(&1000));
    assert_eq!(db.get_at(0, &key, 999), Some(&Value::Nil));
}

#[test]
fn databases_are_apart() {
    let mut db = Database::mock();
    let key = b"key".to_vec();
    db.get_or_create(3, &key).set(b"three".to_vec()).unwrap();
    db.get_or_create(4, &key).set(b"four".to_vec()).unwrap();
    assert_eq!(db.get(3, &key), Some(&string(b"three")));
    assert_eq!(db.get(4, &key), Some(&string(b"four")));
    assert_eq!(db.remove(3, &key), Some(string(b"three")));
    assert_eq!(db.get(3, &key), None);
    assert_eq!(db.get(4, &key), Some(&string(b"four")));
}

#[test]
fn clearing() {
    let mut db = Database::mock();
    for index in 0..3usize {
        for i in 0..50u8 {
            db.get_or_create(index, &vec![i]).set(vec![i]).unwrap();
        }
    }
    for i in 0..20u8 {
        db.remove(1, &vec![i]).unwrap();
    }
    db.set_msexpiration(1, vec![30], i64::MAX);
    db.clear(1);
    assert_eq!(db.data[1].len(), 0);
    assert_eq!(db.get_msexpiration(1, &vec![30]), Some(&i64::MAX));
    assert_eq!(db.data[0].len(), 50);
    db.clearall();
    for index in 0..16usize {
        assert_eq!(db.data[index].len(), 0);
    }
    db.get_or_create(1, &vec![1]).set(vec![2]).unwrap();
    assert_eq!(db.get(1, &vec![1]), Some(&string(&[2])));
}

#[test]
fn tables_shrink_while_they_are_used() {
    let mut table: Table<u32> = Table::new();
    for i in 0..300u32 {
        assert_eq!(table.insert(i.to_string().into_bytes(), i), None);
    }
    table.shrink_to_fit();
    for i in 0..300u32 {
        let key = i.to_string().into_bytes();
        table.rehash();
        assert_eq!(table.get(&key), Some(&i));
        assert!(table.contains_key(&key));
        if i % 3 == 0 {
            assert_eq!(table.remove(&key), Some(i));
            assert_eq!(table.remove(&key), None);
        } else if i % 3 == 1 {
            assert_eq!(table.insert(key.clone(), i + 1000), Some(i));
            *table.get_mut(&key).unwrap() += 1;
        }
    }
    assert_eq!(table.len(), 200);
    for i in 0..300u32 {
        let key = i.to_string().into_bytes();
        let expected = match i % 3 {
            0 => None,
            1 => Some(i + 1001),
            _ => Some(i),
        };
        assert_eq!(table.get(&key).cloned(), expected);
    }
    table.shrink_to_fit();
    table.clear();
    assert_eq!(table.len(), 0);
    assert!(oversized(0, 1));
    assert!(!oversized(12, 10));
    assert!(oversized(12, 11));
}

#[test]
fn keys_move_step_by_step() {
    let mut table: Table<u32> = Table::new();
    for i in 0..100u32 {
        table.insert(i.to_string().into_bytes(), i);
        assert!(table.capacity() >= table.len());
    }
    assert!(!table.index.is_rehashing());
    table.rehash();
    assert!(!table.index.is_rehashing());
    table.shrink_to_fit();
    for step in 0..101usize {
        assert!(table.index.is_rehashing());
        assert!(table.capacity() >= table.len());
        if step == 50 {
            table.shrink_to_fit();
        }
        table.rehash();
    }
    assert!(!table.index.is_rehashing());
    assert_eq!(table.len(), 100);
    table.clear();
    table.shrink_to_fit();
    assert!(table.index.is_rehashing());
    table.rehash();
    assert!(!table.index.is_rehashing());
}

#[test]
fn room_for_keys_and_values_is_given_back() {
    let mut db = Database::mock();
    for i in 0..1000u32 {
        let key = i.to_string().into_bytes();
        db.get_or_create(0, &key).set(key.clone()).unwrap();
    }
    for i in 0..990u32 {
        db.remove(0, &i.to_string().into_bytes()).unwrap();
    }
    assert_eq!(db.data[0].len(), 10);
    assert!(db.data[0].keys.capacity() < 1000);
    assert!(db.data[0].values.capacity() < 1000);
    for i in 990..1000u32 {
        let key = i.to_string().into_bytes();
        assert_eq!(db.get(0, &key), Some(&string(&key)));
    }
}

#[test]
fn use_moves_keys() {
    let mut table: Table<u32> = Table::new();
    for i in 0..4u8 {
        table.insert(vec![i], i as u32);
    }
    table.shrink_to_fit();
    for i in 0..4u8 {
        assert!(table.index.is_rehashing());
        *table.get_mut(&vec![i]).unwrap() += 1;
    }
    assert!(table.index.is_rehashing());
    assert!(table.get_mut(&vec![9]).is_none());
    assert!(!table.index.is_rehashing());
    assert_eq!(table.get(&vec![3]), Some(&4));
}

#[test]
fn removal_begins_to_shrink() {
    let mut db = Database::mock();
    for i in 0..10u8 {
        db.get_or_create(2, &vec![i]).set(vec![i]).unwrap();
    }
    assert!(!db.data[2].index.is_rehashing());
    db.remove(2, &vec![3]).unwrap();
    assert!(db.data[2].index.is_rehashing());
    assert!(!db.data[1].index.is_rehashing());
}

#[test]
fn numbers_of_listeners() {
    let mut db = Database::mock();
    let (tx, _rx) = channel();
    let (flag, _flag_rx) = channel();
    assert_eq!(db.subscribe(b"a".to_vec(), tx.clone()), 0);
    assert_eq!(db.psubscribe(b"a*".to_vec(), tx.clone()), 1);
    assert_eq!(db.key_subscribe(0, &b"k".to_vec(), flag), 2);
    assert_eq!(db.subscribe(b"a".to_vec(), tx), 3);
    assert!(!db.unsubscribe(b"a".to_vec(), 1));
    assert!(!db.unsubscribe(b"b".to_vec(), 0));
    assert!(db.unsubscribe(b"a".to_vec(), 0));
    assert!(!db.unsubscribe(b"a".to_vec(), 0));
    assert!(!db.punsubscribe(b"a*".to_vec(), 0));
    assert!(!db.punsubscribe(b"b*".to_vec(), 1));
    assert!(db.punsubscribe(b"a*".to_vec(), 1));
    assert!(!db.punsubscribe(b"a*".to_vec(), 1));
}

#[test]
fn numbers_are_not_given_again() {
    let mut db = Database::mock();
    let mut given = Vec::new();
    for round in 0..5usize {
        let (tx, _rx) = channel();
        let (flag, _flag_rx) = channel();
        let first = db.subscribe(b"a".to_vec(), tx.clone());
        let second = db.psubscribe(b"a*".to_vec(), tx);
        let third = db.key_subscribe(0, &b"k".to_vec(), flag);
        given.extend(vec![first, second, third]);
        if round % 2 == 0 {
            assert!(db.unsubscribe(b"a".to_vec(), first));
            assert!(db.punsubscribe(b"a*".to_vec(), second));
        }
        db.key_publish(0, &b"k".to_vec());
        db.clearall();
    }
    assert_eq!(given, (0..15).collect::<Vec<usize>>());
    let (tx, _rx) = channel();
    db.subscribe(b"a".to_vec(), tx);
    assert!(db.unsubscribe(b"a".to_vec(), 3));
    assert!(db.unsubscribe(b"a".to_vec(), 9));
    assert!(db.punsubscribe(b"a*".to_vec(), 4));
}

#[test]
fn removal_without_active_rehashing() {
    let mut config = Config::new();
    config.active_rehashing = false;
    let mut db = Database::new(config);
    for i in 0..10u8 {
        db.get_or_create(2, &vec![i]).set(vec![i]).unwrap();
        db.set_msexpiration(2, vec![i], 1000);
    }
    assert!(db.remove_at(2, &vec![3], 0).is_some());
    assert!(db.remove(2, &vec![4]).is_none());
    assert!(db.get_mut(2, &vec![5]).is_none());
    assert_eq!(db.data[2].len(), 7);
    assert!(!db.data[2].index.is_rehashing());
    assert!(!db.data_expiration_ms[2].index.is_rehashing());
}

#[test]
fn absent_keys_move_keys_too() {
    let mut table: Table<u32> = Table::new();
    table.insert(vec![1], 1);
    table.insert(vec![2], 2);
    table.shrink_to_fit();
    assert_eq!(table.remove(&vec![9]), None);
    assert_eq!(table.insert(vec![1], 3), Some(1));
    assert!(table.index.is_rehashing());
    assert_eq!(table.remove(&vec![9]), None);
    assert!(!table.index.is_rehashing());
    assert_eq!(table.get(&vec![1]), Some(&3));
    assert_eq!(table.get(&vec![2]), Some(&2));
}

#[test]
fn messages_reach_channels_and_patterns() {
    let mut db = Database::mock();
    let name = b"news.sport".to_vec();
    let message = b"hello".to_vec();
    let (direct, direct_rx) = channel();
    let (by_pattern, by_pattern_rx) = channel();
    let (elsewhere, elsewhere_rx) = channel();
    let (gone, gone_rx) = channel();
    db.subscribe(name.clone(), direct);
    db.psubscribe(b"news.*".to_vec(), by_pattern.clone());
    db.psubscribe(b"*.sport".to_vec(), by_pattern);
    db.psubscribe(b"x*".to_vec(), elsewhere.clone());
    db.subscribe(b"news".to_vec(), elsewhere);
    db.subscribe(name.clone(), gone);
    drop(gone_rx);
    assert_eq!(db.recipients(&name).len(), 4);
    assert_eq!(db.publish(&name, &message), 3);
    assert_eq!(direct_rx.try_recv().unwrap(), Some(PubsubEvent::Message(name.clone(), None, message.clone())));
    assert!(direct_rx.try_recv().is_err());
    assert_eq!(
        by_pattern_rx.try_recv().unwrap(),
        Some(PubsubEvent::Message(name.clone(), Some(b"*.sport".to_vec()), message.clone()))
    );
    assert_eq!(
        by_pattern_rx.try_recv().unwrap(),
        Some(PubsubEvent::Message(name.clone(), Some(b"news.*".to_vec()), message.clone()))
    );
    assert!(elsewhere_rx.try_recv().is_err());
    assert_eq!(db.publish(&b"nobody".to_vec(), &message), 0);
    assert_eq!(count_successes(&vec![true, false, true]), 2);
}

#[test]
fn keys_that_are_listened_to() {
    let mut db = Database::mock();
    let key = b"key".to_vec();
    let (one, one_rx) = channel();
    let (two, two_rx) = channel();
    let (events, events_rx) = channel();
    db.subscribe(key.clone(), events.clone());
    db.psubscribe(b"*".to_vec(), events);
    db.key_subscribe(0, &key, one);
    db.key_subscribe(0, &key, two);
    db.key_publish(0, &key);
    db.key_publish(0, &b"other".to_vec());
    db.key_publish(1, &key);
    assert_eq!(one_rx.try_recv(), Ok(true));
    assert!(one_rx.try_recv().is_err());
    assert_eq!(two_rx.try_recv(), Ok(true));
    drop(one_rx);
    db.key_publish(0, &key);
    assert_eq!(two_rx.try_recv(), Ok(true));
    assert_eq!(db.key_subscribers[0].get(&key).unwrap().ids, vec![3]);
    assert!(events_rx.try_recv().is_err());
}

#[test]
fn listeners_that_are_kept() {
    let mut listeners: Listeners<bool> = Listeners::new();
    let mut receivers = Vec::new();
    for id in [2usize, 5, 7, 9] {
        let (tx, rx) = channel();
        listeners.insert(id, tx);
        receivers.push(rx);
    }
    assert_eq!(listeners.notify(true), vec![true, true, true, true]);
    listeners.keep(&vec![true, false, false, true]);
    assert_eq!(listeners.ids, vec![2, 9]);
    listeners.notify(false);
    assert_eq!(receivers[0].try_iter().collect::<Vec<_>>(), vec![true, false]);
    assert_eq!(receivers[1].try_iter().collect::<Vec<_>>(), vec![true]);
    assert_eq!(receivers[3].try_iter().collect::<Vec<_>>(), vec![true, false]);
    assert!(listeners.remove(9));
    assert!(!listeners.remove(9));
}

#[test]
fn renamed_commands() {
    let mut config = Config::new();
    config.rename_commands.insert("get".to_owned(), Some("fetch".to_owned()));
    config.rename_commands.insert("get".to_owned(), None);
    config.rename_commands.insert("set".to_owned(), Some("store".to_owned()));
    let db = Database::new(config);
    assert_eq!(db.mapped_command(&"get".to_owned()), None);
    assert_eq!(db.mapped_command(&"set".to_owned()), Some("store".to_owned()));
    assert_eq!(db.mapped_command(&"store".to_owned()), Some("store".to_owned()));
}
