use minebot::bots::{
    bag_add_random, choose_cmd, evo_replicate, evo_slot, restart_slot, start, Stop, CHAINMAX, LINKMAX,
};
use minebot::geom::{Dir, Point, Rect};
use minebot::random::{random_count, random_index, seed_key, seeded_rng};
use minebot::state::{parse, Cmd, Outcome};

#[test]
fn seed_key_folds_bytes() {
    let key = seed_key(&b"ab".to_vec());
    assert_eq!(key[0], b'a');
    assert_eq!(key[1], b'b');
    assert!(key[2..].iter().all(|b| *b == 0));
    let mut long: Vec<u8> = (0u8..33).collect();
    long[32] = 0xFF;
    let key = seed_key(&long);
    assert_eq!(key[0], 0xFF);
    assert_eq!(key[1], 1);
    assert_eq!(key[31], 31);
}

#[test]
fn seeded_draws_repeat() {
    let mut a = seeded_rng(&b"lambda".to_vec());
    let mut b = seeded_rng(&b"lambda".to_vec());
    for _ in 0..50 {
        assert_eq!(random_index(&mut a, 1000), random_index(&mut b, 1000));
    }
}

#[test]
fn counts_stay_in_range() {
    let mut rng = seeded_rng(&b"counts".to_vec());
    let mut seen = [false; 6];
    for _ in 0..300 {
        let c = random_count(&mut rng, LINKMAX);
        assert!((1..=LINKMAX).contains(&c));
        seen[c] = true;
        let d = random_count(&mut rng, CHAINMAX);
        assert!((1..=CHAINMAX).contains(&d));
    }
    assert!(seen[1..].iter().all(|s| *s));
    assert_eq!(random_count(&mut rng, 1), 1);
}

#[test]
fn indices_stay_below() {
    let mut rng = seeded_rng(&b"index".to_vec());
    let mut seen = [false; 4];
    for _ in 0..200 {
        let i = random_index(&mut rng, 4);
        assert!(i < 4);
        seen[i] = true;
    }
    assert!(seen.iter().all(|s| *s));
}

#[test]
fn chosen_commands_have_weight() {
    let mut rng = seeded_rng(&b"cmds".to_vec());
    assert_eq!(choose_cmd(&mut rng, &vec![0, 0, 0, 0, 0]), None);
    for _ in 0..50 {
        assert_eq!(choose_cmd(&mut rng, &vec![0, 0, 3, 0, 0]), Some(Cmd::Move(Dir::Up)));
    }
    let mut seen = Vec::new();
    for _ in 0..200 {
        let c = choose_cmd(&mut rng, &vec![1, 0, 1, 0, 1]).unwrap();
        assert!(c != Cmd::Move(Dir::Right) && c != Cmd::Move(Dir::Down));
        if !seen.contains(&c) {
            seen.push(c);
        }
    }
    assert_eq!(seen.len(), 3);
}

#[test]
fn evolving_slots() {
    let mut rng = seeded_rng(&b"slots".to_vec());
    for _ in 0..50 {
        assert_eq!(evo_slot(&mut rng, 10, 1), 0);
        assert!(evo_slot(&mut rng, 3, 5) < 3);
        assert!(evo_slot(&mut rng, 8, 5) < 5);
    }
}

#[test]
fn random_bag_additions() {
    let mut rng = seeded_rng(&b"bag".to_vec());
    let mut bag = vec![0u32, 1, 2];
    bag_add_random(&mut rng, &mut bag, 9, 5);
    assert_eq!(bag, vec![0, 1, 2, 9]);
    let mut slots = Vec::new();
    for k in 0..100u32 {
        let before = bag.clone();
        bag_add_random(&mut rng, &mut bag, 100 + k, 3);
        assert_eq!(bag.len(), 4);
        assert_eq!(bag[0], 0);
        let changed: Vec<usize> = (0..4).filter(|i| bag[*i] != before[*i]).collect();
        assert_eq!(changed.len(), 1);
        assert_eq!(bag[changed[0]], 100 + k);
        if !slots.contains(&changed[0]) {
            slots.push(changed[0]);
        }
    }
    slots.sort();
    assert_eq!(slots, vec![1, 2, 3]);
}

#[test]
fn union_and_intersection_cells() {
    let a = Rect { x: -2, y: 0, w: 4, h: 3 };
    let b = Rect { x: 1, y: 1, w: 5, h: 5 };
    let u = a.union(&b);
    let i = a.intersect(&b);
    for x in -4..8i16 {
        for y in -2..8i16 {
            let p = Point { x, y };
            if a.contains(p) || b.contains(p) {
                assert!(u.contains(p));
            }
            assert_eq!(i.contains(p), a.contains(p) && b.contains(p));
        }
    }
    assert_eq!(i, Rect { x: 1, y: 1, w: 1, h: 2 });
}

#[test]
fn shell_stops_on_a_signal() {
    let v: Vec<Vec<char>> = ["#####", "#R\\L#", "#####"].iter().map(|l| l.chars().collect()).collect();
    let (mut shell, p0) = start(parse(&v).unwrap());
    assert_eq!(shell.try_step(&p0, Cmd::Move(Dir::Right), true).err(), Some(Stop::Timeout));
    assert_eq!(shell.best.score, 0);
    let p1 = shell.try_step(&p0, Cmd::Move(Dir::Right), false).unwrap();
    assert_eq!(p1.score, 49);
    assert_eq!(shell.best.score, 49);
    let p2 = shell.try_step(&p1, Cmd::Move(Dir::Left), false).unwrap();
    assert_eq!(p2.score, 48);
    assert_eq!(shell.best.score, 49);
}

#[test]
fn chains_replicate_on_lambdas() {
    assert_eq!(evo_replicate(Outcome::Cont, false, 1), Some(1));
    assert_eq!(evo_replicate(Outcome::Cont, true, 1), Some(2));
    assert_eq!(evo_replicate(Outcome::Won, true, 3), None);
    assert_eq!(evo_replicate(Outcome::Died, false, 3), None);
    assert_eq!(evo_replicate(Outcome::TooLong, false, 1), None);
}

#[test]
fn restarting_a_slot_copies_the_first() {
    let v: Vec<Vec<char>> = ["#####", "#R\\L#", "#####"].iter().map(|l| l.chars().collect()).collect();
    let (mut shell, p0) = start(parse(&v).unwrap());
    let p1 = shell.step(&p0, Cmd::Move(Dir::Right));
    let mut bag = vec![p0.duplicate(), p1.duplicate(), p1];
    restart_slot(&mut bag, 2);
    assert_eq!(bag.len(), 3);
    assert_eq!(bag[2].to_str(), Vec::<char>::new());
    assert_eq!(bag[1].to_str(), vec!['R']);
}
