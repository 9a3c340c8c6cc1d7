use minebot::geom::Dir;
use minebot::hist::{initial, key_action, play, prompt_keys, KeyAction, Marks};
use minebot::state::{parse, Cmd, Outcome, State};

fn game(ls: &[&str]) -> State {
    let v: Vec<Vec<char>> = ls.iter().map(|l| l.chars().collect()).collect();
    parse(&v).expect("map should parse")
}

#[test]
fn marks_keep_keys_in_order() {
    let h0 = initial(game(&["#####", "#R.L#", "#####"]));
    let h1 = play(&h0, Cmd::Move(Dir::Right));
    let mut m = Marks::new();
    assert!(m.is_empty());
    assert!(m.find('a').is_none());
    m.set('q', h1.clone());
    m.set('b', h0.clone());
    m.set('x', h0.clone());
    m.set('b', h1.clone());
    assert!(!m.is_empty());
    assert_eq!(m.key_list(), vec!['b', 'q', 'x']);
    assert_eq!(m.find('b').unwrap().to_str(), vec!['R']);
    assert_eq!(m.find('x').unwrap().to_str(), vec![]);
    assert!(m.find('c').is_none());
}

#[test]
fn keys_at_the_player() {
    let h0 = initial(game(&["#####", "#R.L#", "#####"]));
    let mut m = Marks::new();
    assert_eq!(key_action(&h0, &m, 'h'), KeyAction::Play(Cmd::Move(Dir::Left)));
    assert_eq!(key_action(&h0, &m, 'j'), KeyAction::Play(Cmd::Move(Dir::Down)));
    assert_eq!(key_action(&h0, &m, 'k'), KeyAction::Play(Cmd::Move(Dir::Up)));
    assert_eq!(key_action(&h0, &m, 'l'), KeyAction::Play(Cmd::Move(Dir::Right)));
    assert_eq!(key_action(&h0, &m, '.'), KeyAction::Play(Cmd::Wait));
    assert_eq!(key_action(&h0, &m, '-'), KeyAction::Bell);
    assert_eq!(key_action(&h0, &m, '\''), KeyAction::Bell);
    assert_eq!(key_action(&h0, &m, 'm'), KeyAction::Mark);
    assert_eq!(key_action(&h0, &m, 'q'), KeyAction::Quit);
    assert_eq!(key_action(&h0, &m, 'z'), KeyAction::Bell);
    assert_eq!(prompt_keys(&h0, &m), "hjkl.mq".chars().collect::<Vec<char>>());
    let h1 = play(&h0, Cmd::Move(Dir::Right));
    m.set('a', h1.clone());
    assert_eq!(key_action(&h1, &m, '-'), KeyAction::Undo);
    assert_eq!(key_action(&h1, &m, '\''), KeyAction::Travel);
    assert_eq!(prompt_keys(&h1, &m), "hjkl.-'mq".chars().collect::<Vec<char>>());
    let won = play(&h1, Cmd::Move(Dir::Right));
    assert_eq!(won.res, Outcome::Won);
    assert_eq!(key_action(&won, &m, 'h'), KeyAction::Bell);
    assert_eq!(prompt_keys(&won, &m), "-'mq".chars().collect::<Vec<char>>());
}
