use minebot::bots::{evo_weights, opposed, pick, pick_cmd, rand_weights, start, total_weight};
use minebot::geom::{Dir, Point, Rect};
use minebot::hist::{char_le, initial, play, show_info};
use minebot::mine::{new_mine, parse as parse_map, print as print_mine, Change, ParseError};
use minebot::space::{
    char_of_space, is_map_char, space_hide_, space_of_char, space_show_, Space,
};
use minebot::state::{
    char_of_cmd, cmd_of_char, cmd_opt_of_char, get_map, parse, rock_change, step, Cmd, Outcome,
    State,
};
use minebot::term::{game_mode, game_mode_on, get as signal_seen, tty_ok, TtyRequest, STDIN_FILENO};
use minebot::text::{coord_below, int_from_word, lower_eq, split_lines, split_words, word_eq};

fn lines(ls: &[&str]) -> Vec<Vec<char>> {
    ls.iter().map(|l| l.chars().collect()).collect()
}

fn strs(v: &Vec<Vec<char>>) -> Vec<String> {
    v.iter().map(|l| l.iter().collect()).collect()
}

fn game(ls: &[&str]) -> State {
    parse(&lines(ls)).expect("map should parse")
}

#[test]
fn space_char_roundtrip() {
    for c in "R#*\\LO. ABCDEFGHI123456789".chars() {
        assert!(is_map_char(c));
        let s = space_of_char(c);
        assert_eq!(char_of_space(s), c);
        assert_eq!(space_show_(space_hide_(s)), s);
    }
    assert!(!is_map_char('X'));
    assert_eq!(space_of_char('C'), Space::Tramp(3));
    assert_eq!(space_of_char('7'), Space::Target(7));
    assert_eq!(space_hide_(Space::Tramp(3)), 67);
    assert_eq!(space_hide_(Space::Target(7)), 55);
    assert_eq!(space_hide_(Space::Empty), 7);
    assert_eq!(space_show_(4), Space::ClosedLift);
    assert_eq!(space_show_(79), Space::Tramp(15));
}

#[test]
fn cmd_chars() {
    for c in "LRUDW".chars() {
        assert_eq!(char_of_cmd(cmd_of_char(c)), c);
    }
    assert_eq!(cmd_opt_of_char('A'), None);
    assert_eq!(cmd_opt_of_char('U'), Some(Cmd::Move(Dir::Up)));
}

#[test]
fn geom_values() {
    let r = Rect { x: 0, y: 0, w: 3, h: 2 };
    assert_eq!(r.area(), 6);
    let a = Rect { x: 0, y: 0, w: 1, h: 1 };
    let b = Rect { x: 2, y: 3, w: 1, h: 1 };
    assert_eq!(a.union(&b), Rect { x: 0, y: 0, w: 3, h: 4 });
    let c = Rect { x: 0, y: 0, w: 5, h: 5 };
    let d = Rect { x: 2, y: 2, w: 5, h: 5 };
    assert_eq!(c.intersect(&d), Rect { x: 2, y: 2, w: 3, h: 3 });
    let e = Rect { x: 1, y: 1, w: 2, h: 2 };
    assert_eq!(e.grow(1, 1, 0, 1), Rect { x: 0, y: 1, w: 4, h: 3 });
    assert_eq!(e.trans(Point { x: 2, y: 2 }), Some(Point { x: 1, y: 1 }));
    assert_eq!(e.trans(Point { x: 3, y: 1 }), None);
    assert!(e.contains(Point { x: 1, y: 2 }));
    assert!(!e.contains(Point { x: 0, y: 2 }));
    assert_eq!(Point { x: 4, y: 4 }.step(Dir::Up), Point { x: 4, y: 5 });
    assert_eq!(Point { x: 4, y: 4 }.step(Dir::Left), Point { x: 3, y: 4 });
    assert_eq!(Point { x: 4, y: 4 }.bbox(), Rect { x: 4, y: 4, w: 1, h: 1 });
}

#[test]
fn parse_and_print_roundtrip() {
    let map = ["######", "#. *R#", "#  \\.#", "#\\ * #", "L  .\\#", "######"];
    let st = game(&map);
    assert_eq!(strs(&st.print()), map.iter().map(|s| s.to_string()).collect::<Vec<_>>());
    assert_eq!(st.rloc, Point { x: 4, y: 4 });
    assert_eq!(st.c.lamb, 3);
    assert_eq!(st.rolling, 2);
    assert_eq!(st.c.tlim, 36);
    assert_eq!(st.water, -1);
    assert_eq!(st.c.wproof, 10);
    assert_eq!(st.c.flood, 0);
}

#[test]
fn short_lines_are_padded() {
    let st = game(&["####", "#R", "####"]);
    assert_eq!(strs(&st.print()), vec!["####", "#R  ", "####"]);
}

#[test]
fn parse_errors() {
    assert_eq!(parse(&lines(&["#X#"])).err(), Some(ParseError::BadChar));
    assert_eq!(parse(&lines(&["", "###"])).err(), Some(ParseError::NoMap));
    assert_eq!(parse(&lines(&["###"])).err(), Some(ParseError::NoRobot));
    assert_eq!(parse(&lines(&["#R#", "", "Foo 1"])).err(), Some(ParseError::BadMetadata));
    assert_eq!(parse(&lines(&["#R#", "", "Water x"])).err(), Some(ParseError::BadMetadata));
    assert_eq!(parse(&lines(&["#R#", "", "Trampoline A goes 1"])).err(), Some(ParseError::BadMetadata));
    let too_wide: String = std::iter::repeat('#').take(32767).collect();
    assert_eq!(parse(&lines(&[too_wide.as_str(), "#R"])).err(), Some(ParseError::TooLarge));
}

#[test]
fn wide_maps() {
    let widest: String = std::iter::once('R').chain(std::iter::repeat('#').take(32765)).collect();
    let st = parse(&lines(&[widest.as_str()])).expect("a game as wide as a game can be");
    assert_eq!(st.rloc, Point { x: 0, y: 0 });
    assert_eq!(st.c.tlim, 32766);
    let (o, next) = step(&st, Cmd::Wait);
    assert_eq!(o, Outcome::Cont);
    assert_eq!(next.time, 1);
    let walls: String = std::iter::repeat('#').take(40000).collect();
    let (img, meta) = parse_map(&lines(&[walls.as_str(), "", "x"])).expect("the map reader has no size bound");
    assert_eq!(img.height(), 1);
    assert_eq!(img.width(), 40000);
    assert_eq!(meta, 2);
    let mut m = new_mine(img);
    let out = print_mine(&mut m);
    assert_eq!(out.len(), 1);
    assert_eq!(out[0].iter().collect::<String>(), walls);
}

#[test]
fn metadata() {
    let st = game(&["#####", "#RA1#", "#####", "", "WATER 2", "flooding 5", "Waterproof 3", "Trampoline A targets 1", "  "]
        [..8]);
    assert_eq!(st.water, 1);
    assert_eq!(st.c.flood, 5);
    assert_eq!(st.c.wproof, 3);
    assert_eq!(st.c.trampmap[1], 1);
    assert_eq!(st.c.trampmap[2], 16);
    assert_eq!(st.c.tramploc[1], Point { x: 2, y: 1 });
    assert_eq!(st.c.targetloc[1], Point { x: 3, y: 1 });
    assert_eq!(st.c.tramploc[2], Point { x: -1, y: -1 });
    assert_eq!(parse(&lines(&["#R#", "", "   "])).err(), Some(ParseError::BadMetadata));
}

#[test]
fn get_map_splits_lines() {
    let txt: Vec<char> = "###\n#R#\n###\n\nFlooding 7\n".chars().collect();
    let st = get_map(&txt).expect("parses");
    assert_eq!(st.c.flood, 7);
    assert_eq!(st.rloc, Point { x: 1, y: 1 });
    let ls = split_lines(&txt);
    assert_eq!(strs(&ls), vec!["###", "#R#", "###", "", "Flooding 7"]);
}

#[test]
fn walk_and_win() {
    let st = game(&["#####", "#R.L#", "#####"]);
    let (o, st) = step(&st, Cmd::Move(Dir::Right));
    assert_eq!(o, Outcome::Cont);
    assert_eq!(strs(&st.print()), vec!["#####", "# RO#", "#####"]);
    assert_eq!(st.time, 1);
    assert_eq!(st.score(None), -1);
    let (o, st) = st.step(Cmd::Move(Dir::Right));
    assert_eq!(o, Outcome::Won);
    assert_eq!(st.score(Some(o)), -2);
}

#[test]
fn collect_lambda_opens_lift() {
    let st = game(&["#####", "#R\\L#", "#####"]);
    let (o, st) = step(&st, Cmd::Move(Dir::Right));
    assert_eq!(o, Outcome::Cont);
    assert_eq!(st.lgot, 1);
    assert!(st.collected);
    assert_eq!(strs(&st.print()), vec!["#####", "# RO#", "#####"]);
    assert_eq!(st.score(None), 49);
    assert_eq!(st.score(Some(Outcome::Won)), 74);
    assert_eq!(st.score(Some(Outcome::Died)), 24);
}

#[test]
fn lift_stays_closed_with_lambdas_left() {
    let st = game(&["######", "#R.\\L#", "######"]);
    let (_, st) = step(&st, Cmd::Move(Dir::Right));
    assert_eq!(strs(&st.print()), vec!["######", "# R\\L#", "######"]);
}

#[test]
fn falling_rock_kills() {
    let st = game(&["#####", "#*  #", "#   #", "#R  #", "#####"]);
    assert!(st.useful(Cmd::Wait));
    let (o, st) = step(&st, Cmd::Wait);
    assert_eq!(o, Outcome::Died);
    assert_eq!(st.rolling, 1);
    assert_eq!(strs(&st.print()), vec!["#####", "#   #", "#*  #", "#R  #", "#####"]);
}

#[test]
fn rocks_fall_and_slide() {
    let st = game(&["######", "# *  #", "# *  #", "#R   #", "######"]);
    let (o, st) = step(&st, Cmd::Wait);
    assert_eq!(o, Outcome::Cont);
    assert_eq!(st.rolling, 2);
    assert_eq!(strs(&st.print()), vec!["######", "#    #", "#  * #", "#R*  #", "######"]);
    let (o, st) = step(&st, Cmd::Wait);
    assert_eq!(o, Outcome::Cont);
    assert_eq!(strs(&st.print()), vec!["######", "#    #", "#    #", "#R** #", "######"]);
    let (_, st) = step(&st, Cmd::Wait);
    assert_eq!(st.rolling, 0);
    assert!(!st.useful(Cmd::Wait));
}

#[test]
fn rock_slides_off_lambda() {
    let st = game(&["#####", "#*  #", "#\\  #", "#R  #", "#####"]);
    let (_, st) = step(&st, Cmd::Wait);
    assert_eq!(strs(&st.print()), vec!["#####", "#   #", "#\\* #", "#R  #", "#####"]);
}

#[test]
fn push_rock() {
    let st = game(&["######", "#R*  #", "######"]);
    assert!(st.useful(Cmd::Move(Dir::Right)));
    assert!(!st.useful(Cmd::Move(Dir::Up)));
    assert!(!st.useful(Cmd::Move(Dir::Left)));
    let (o, st) = step(&st, Cmd::Move(Dir::Right));
    assert_eq!(o, Outcome::Cont);
    assert_eq!(strs(&st.print()), vec!["######", "# R* #", "######"]);
    let st2 = game(&["#####", "#R*##", "#####"]);
    let (_, st2) = step(&st2, Cmd::Move(Dir::Right));
    assert_eq!(st2.rloc, Point { x: 1, y: 1 });
}

#[test]
fn trampoline_jump() {
    let st = game(&["#######", "#RA  1#", "#######", "", "Trampoline A targets 1"]);
    assert!(st.can_step(Cmd::Move(Dir::Right)));
    let (o, st) = step(&st, Cmd::Move(Dir::Right));
    assert_eq!(o, Outcome::Cont);
    assert_eq!(st.rloc, Point { x: 5, y: 1 });
    assert_eq!(strs(&st.print()), vec!["#######", "#    R#", "#######"]);
    let st = game(&["#######", "#RA  1#", "#######"]);
    assert!(!st.can_step(Cmd::Move(Dir::Right)));
    assert!(st.can_step(Cmd::Wait));
}

#[test]
fn flooding_drowns() {
    let st = game(&["#####", "#R  #", "#####", "", "Water 1", "Flooding 2", "Waterproof 0"]);
    assert_eq!(st.water, 0);
    let (o, st) = step(&st, Cmd::Wait);
    assert_eq!(o, Outcome::Cont);
    assert_eq!(st.water, 0);
    assert_eq!(st.wdmg, 0);
    let (o, st) = step(&st, Cmd::Wait);
    assert_eq!(st.water, 1);
    assert_eq!(st.wdmg, 1);
    assert_eq!(o, Outcome::Died);
}

#[test]
fn turn_limit() {
    let st = game(&["R"]);
    assert_eq!(st.c.tlim, 1);
    let (o, _) = step(&st, Cmd::Wait);
    assert_eq!(o, Outcome::TooLong);
}

#[test]
fn rock_change_values() {
    let (img, meta) = parse_map(&lines(&["#*#", "# #", "###", "", "x"])).unwrap();
    assert_eq!(meta, 4);
    assert_eq!(rock_change(&img, Point { x: 1, y: 2 }), Some(Point { x: 1, y: 1 }));
    assert_eq!(rock_change(&img, Point { x: 1, y: 1 }), None);
    assert_eq!(img.get(Point { x: 5, y: 5 }), Space::Wall);
    assert_eq!(img.bbox(), Rect { x: 0, y: 0, w: 3, h: 3 });
}

#[test]
fn mine_edit_last_write_wins() {
    let (img, _) = parse_map(&lines(&["R. ", "..."])).unwrap();
    let m = new_mine(img);
    let p = Point { x: 1, y: 1 };
    let m2 = m.edit(vec![
        Change { at: p, what: Space::Rock },
        Change { at: p, what: Space::Lambda },
        Change { at: Point { x: 0, y: 0 }, what: Space::Empty },
    ]);
    assert_eq!(m2.get(p), Space::Lambda);
    assert_eq!(m.get(p), Space::Earth);
    assert_eq!(m2.get(Point { x: 2, y: 1 }), Space::Empty);
    let mut m3 = m2.duplicate();
    m3.focus();
    assert_eq!(m3.get(p), Space::Lambda);
    let mut m4 = m2.duplicate();
    assert_eq!(strs(&print_mine(&mut m4)), vec!["R\\ ", " .."]);
}

#[test]
fn words_and_integers() {
    let l: Vec<char> = "  Water \t 5 ".chars().collect();
    assert_eq!(strs(&split_words(&l)), vec!["Water", "5"]);
    let w: Vec<char> = "-12".chars().collect();
    assert_eq!(int_from_word(&w), Some(4294967284));
    let w: Vec<char> = "12a".chars().collect();
    assert_eq!(int_from_word(&w), None);
    let w: Vec<char> = "-".chars().collect();
    assert_eq!(int_from_word(&w), None);
    let w: Vec<char> = "9223372036854775807".chars().collect();
    assert_eq!(int_from_word(&w), Some(u32::MAX));
    let w: Vec<char> = "9223372036854775808".chars().collect();
    assert_eq!(int_from_word(&w), Some(0));
    let w: Vec<char> = "007".chars().collect();
    assert_eq!(int_from_word(&w), Some(7));
    assert_eq!(coord_below(0), -1);
    assert_eq!(coord_below(32768), 32767);
    assert_eq!(coord_below(32769), -32768);
    let w: Vec<char> = "FLOODing".chars().collect();
    assert!(lower_eq(&w, &['f', 'l', 'o', 'o', 'd', 'i', 'n', 'g']));
    assert!(!word_eq(&w, &['f', 'l', 'o', 'o', 'd', 'i', 'n', 'g']));
}

#[test]
fn water_metadata_truncates() {
    let st = game(&["R", "", "Flooding -1", "Water 65537", "Waterproof 99999999999999999999998"]);
    assert_eq!(st.c.flood, u32::MAX);
    assert_eq!(st.water, 0);
    assert_eq!(st.c.wproof, (99999999999999999999998u128 % (1u128 << 32)) as u32);
}

#[test]
fn bot_weights_and_choice() {
    let st = game(&["######", "#R*  #", "######"]);
    let w = evo_weights(&st, Cmd::Wait);
    assert_eq!(w, vec![0, 10, 0, 0, 5]);
    assert_eq!(total_weight(&w), 15);
    assert_eq!(pick(&w, 0), Some(1));
    assert_eq!(pick(&w, 9), Some(1));
    assert_eq!(pick(&w, 10), Some(4));
    assert_eq!(pick(&w, 15), None);
    assert_eq!(pick_cmd(&w, 12), Some(Cmd::Wait));
    assert_eq!(evo_weights(&st, Cmd::Move(Dir::Right)), vec![0, 35, 0, 0, 5]);
    assert_eq!(rand_weights(&st), vec![0, 1, 0, 0, 1]);
    let st = game(&["#####", "#.R\\#", "#####"]);
    assert_eq!(evo_weights(&st, Cmd::Move(Dir::Right)), vec![1, 315, 0, 0, 0]);
    assert!(opposed(Cmd::Move(Dir::Up), Cmd::Move(Dir::Down)));
    assert!(!opposed(Cmd::Move(Dir::Up), Cmd::Wait));
}

#[test]
fn shell_keeps_best() {
    let st = game(&["#####", "#R\\L#", "#####"]);
    let (mut shell, pos0) = start(st);
    assert_eq!(pos0.score, 0);
    let pos1 = shell.step(&pos0, Cmd::Move(Dir::Right));
    assert_eq!(pos1.score, 49);
    assert_eq!(shell.best.score, 49);
    assert_eq!(pos1.to_str(), vec!['R']);
    assert_eq!(pos1.head(), Cmd::Move(Dir::Right));
    assert_eq!(pos0.head(), Cmd::Wait);
    let pos2 = shell.step(&pos1, Cmd::Wait);
    assert_eq!(pos2.score, 48);
    assert_eq!(shell.best.score, 49);
    assert_eq!(shell.best.trail, vec![Cmd::Move(Dir::Right)]);
    let pos3 = shell.step(&pos2, Cmd::Move(Dir::Right));
    assert_eq!(pos3.outcome, Outcome::Won);
    assert_eq!(pos3.score, 72);
    assert_eq!(shell.best.score, 72);
    assert_eq!(pos3.to_str(), vec!['R', 'W', 'R']);
}

#[test]
fn history_undo() {
    let st = game(&["#####", "#R.L#", "#####"]);
    let h0 = initial(st);
    let h1 = play(&h0, Cmd::Move(Dir::Right));
    let h2 = play(&h1, Cmd::Wait);
    assert_eq!(h2.cmds(), vec![Cmd::Wait, Cmd::Move(Dir::Right)]);
    assert_eq!(h2.to_str(), vec!['R', 'W']);
    assert_eq!(h2.score(), -2);
    let back = h2.tail();
    assert_eq!(back.to_str(), vec!['R']);
    assert_eq!(back.tail().cmds(), vec![]);
    assert!(char_le('a', 'b'));
    assert!(!char_le('b', 'a'));
}

#[test]
fn show_info_values() {
    let st = game(&["#####", "#R  #", "#   #", "#####", "", "Water 2", "Flooding 4"]);
    let h0 = initial(st);
    let info = show_info(&h0);
    assert_eq!(info.score, 0);
    assert_eq!(info.water_line, Some(2));
    assert_eq!(info.flood_left, Some(4));
    assert_eq!(info.cursor_row, 2);
    assert_eq!(info.cursor_col, 2);
    let h1 = play(&h0, Cmd::Move(Dir::Right));
    let info = show_info(&h1);
    assert_eq!(info.flood_left, Some(3));
    assert_eq!(info.cursor_col, 3);
    assert_eq!(info.score, -1);
    let dry = initial(game(&["R"]));
    assert_eq!(show_info(&dry).water_line, None);
    assert_eq!(show_info(&dry).flood_left, None);
}

#[test]
fn opposition_is_symmetric() {
    let cs = [Cmd::Move(Dir::Left), Cmd::Move(Dir::Right), Cmd::Move(Dir::Up), Cmd::Move(Dir::Down), Cmd::Wait];
    for a in cs.iter() {
        assert!(!opposed(*a, *a));
        for b in cs.iter() {
            assert_eq!(opposed(*a, *b), opposed(*b, *a));
        }
    }
}

#[test]
fn walls_stay_and_robot_stays() {
    let map = ["#######", "#R*.\\ #", "# #*  #", "#  L  #", "#######"];
    let mut st = game(&map);
    for c in "RDDLWURR".chars() {
        let cmd = cmd_of_char(c);
        if !st.can_step(cmd) {
            break;
        }
        let (o, n) = step(&st, cmd);
        st = n;
        let printed = strs(&st.print());
        for (i, line) in map.iter().enumerate() {
            for (j, ch) in line.chars().enumerate() {
                if ch == '#' {
                    assert_eq!(printed[i].chars().nth(j), Some('#'));
                }
            }
        }
        assert_eq!(st.mine.get(st.rloc), Space::Robot);
        if o != Outcome::Cont {
            break;
        }
    }
}

#[test]
fn terminal_requests() {
    assert_eq!(game_mode(true), TtyRequest { fd: STDIN_FILENO, on: 1 });
    assert_eq!(game_mode(false), TtyRequest { fd: 0, on: 0 });
    assert_eq!(game_mode_on(3, true), TtyRequest { fd: 3, on: 1 });
    assert!(tty_ok(0));
    assert!(!tty_ok(-1));
    assert!(signal_seen(2));
    assert!(!signal_seen(0));
}

#[test]
fn without_lambdas_scores_fall() {
    let mut st = game(&["#######", "#R * L#", "#  *  #", "#######"]);
    assert_eq!(st.c.lamb, 0);
    assert_eq!(st.score(None), 0);
    for (i, c) in "RDLWU".chars().enumerate() {
        let (o, n) = step(&st, cmd_of_char(c));
        st = n;
        assert_eq!(st.lgot, 0);
        assert_eq!(st.score(None), -(i as i64 + 1));
        assert_eq!(st.score(Some(Outcome::Won)), -(i as i64 + 1));
        for y in 0..4i16 {
            for x in 0..7i16 {
                assert!(st.mine.get(Point { x, y }) != Space::Lambda);
            }
        }
        if o != Outcome::Cont {
            break;
        }
    }
}

#[test]
fn edits_take_any_code() {
    let (img, _) = parse_map(&lines(&["R. ", "..."])).unwrap();
    let m = new_mine(img);
    let m2 = m.edit(vec![
        Change { at: Point { x: 1, y: 0 }, what: Space::Tramp(12) },
        Change { at: Point { x: 2, y: 1 }, what: Space::Target(15) },
        Change { at: Point { x: 1, y: 0 }, what: Space::Tramp(14) },
    ]);
    assert_eq!(m2.get(Point { x: 1, y: 0 }), Space::Tramp(14));
    assert_eq!(m2.get(Point { x: 2, y: 1 }), Space::Target(15));
    assert_eq!(m.get(Point { x: 1, y: 0 }), Space::Earth);
    let mut m3 = m2.duplicate();
    m3.focus();
    assert_eq!(m3.get(Point { x: 1, y: 0 }), Space::Tramp(14));
    assert_eq!(m3.get(Point { x: 0, y: 1 }), Space::Robot);
}

#[test]
fn movable_rocks_stay_near_the_unsettled_region() {
    let mut st = game(&[
        "##########",
        "#*  * * .#",
        "#** *.*  #",
        "#R .* *  #",
        "#   ..  L#",
        "##########",
    ]);
    for c in "RRDLLWWRRUW".chars() {
        let cmd = cmd_of_char(c);
        if !st.can_step(cmd) {
            break;
        }
        let (o, n) = step(&st, cmd);
        st = n;
        let mut m = st.mine.duplicate();
        m.focus();
        let img = m.image();
        let r = st.rollrect;
        for y in 0..6i16 {
            for x in 0..10i16 {
                let h = Point { x, y };
                if rock_change(img, h).is_some() {
                    assert!(r.x as i32 - 1 <= x as i32 && x as i32 <= r.x as i32 + r.w as i32);
                    assert!(r.y as i32 <= y as i32 && y as i32 <= r.y as i32 + r.h as i32);
                }
            }
        }
        if o != Outcome::Cont {
            break;
        }
    }
}
