use tmuxlayout::{
    do_pane, do_parse, do_preare_panel_tiled, do_prepare, do_window, resolve, send_keys,
    OrderedMap, TmuxLayout, TmuxPane, TmuxWindow,
};

const SPLIT: &str = "tmux splitw -h";
const TILED: &str = "tmux select-layout tiled";

fn s(text: &str) -> String {
    text.to_string()
}

fn pane(root: &str, env: &[(&str, &str)], cmds: &[&str]) -> TmuxPane {
    let mut vars = OrderedMap::new();
    for (name, value) in env {
        vars.insert(s(name), s(value));
    }
    TmuxPane { root: s(root), env: vars, cmds: cmds.iter().map(|c| s(c)).collect() }
}

fn window(root: &str, panes: Vec<(&str, TmuxPane)>) -> TmuxWindow {
    let mut map = OrderedMap::new();
    for (name, p) in panes {
        map.insert(s(name), p);
    }
    TmuxWindow { root: s(root), panes: map }
}

fn layout(
    name: &str,
    root: &str,
    restart: bool,
    on_start: &[&str],
    windows: Vec<(&str, TmuxWindow)>,
) -> TmuxLayout {
    let mut map = OrderedMap::new();
    for (name, w) in windows {
        map.insert(s(name), w);
    }
    TmuxLayout {
        name: s(name),
        root: s(root),
        restart_if_exists: restart,
        on_start: on_start.iter().map(|c| s(c)).collect(),
        windows: map,
    }
}

fn script(layout: &TmuxLayout) -> Vec<String> {
    let mut out = vec![];
    do_parse(layout, &mut out);
    out
}

fn tile(count: usize) -> Vec<String> {
    let mut out = vec![];
    do_preare_panel_tiled(count, &mut out);
    out
}

#[test]
fn resolve_takes_the_child_where_it_names_a_directory() {
    assert_eq!(resolve("", ""), "");
    assert_eq!(resolve("P", ""), "P");
    assert_eq!(resolve("P", "C"), "C");
    assert_eq!(resolve("", "C"), "C");
}

#[test]
fn tile_of_no_pane_and_of_one_pane_only_arranges() {
    assert_eq!(tile(0), vec![TILED]);
    assert_eq!(tile(1), vec![TILED]);
}

#[test]
fn tile_arranges_after_every_second_split() {
    assert_eq!(tile(2), vec![SPLIT, TILED, TILED]);
    assert_eq!(tile(3), vec![SPLIT, TILED, SPLIT, TILED]);
    assert_eq!(tile(4), vec![SPLIT, TILED, SPLIT, SPLIT, TILED, TILED]);
    assert_eq!(tile(5), vec![SPLIT, TILED, SPLIT, SPLIT, TILED, SPLIT, TILED]);
    assert_eq!(tile(6), vec![SPLIT, TILED, SPLIT, SPLIT, TILED, SPLIT, SPLIT, TILED, TILED]);
}

#[test]
fn tile_appends_to_what_is_there() {
    let mut out = vec![s("before")];
    do_preare_panel_tiled(2, &mut out);
    assert_eq!(out, vec!["before", SPLIT, TILED, TILED]);
}

#[test]
fn tile_counts_of_splits_and_arrangements() {
    for count in 0..40usize {
        let out = tile(count);
        let splits = out.iter().filter(|l| l.as_str() == SPLIT).count();
        let tiled = out.iter().filter(|l| l.as_str() == TILED).count();
        let expected_splits = if count > 1 { count - 1 } else { 0 };
        assert_eq!(splits, expected_splits);
        assert_eq!(tiled, 1 + (expected_splits + 1) / 2);
        assert_eq!(out.last().map(|l| l.as_str()), Some(TILED));
    }
}

#[test]
fn pane_lines_come_in_their_order() {
    let p = pane("./src", &[("B", "2"), ("A", "1")], &["make", "ls -l"]);
    let mut out = vec![];
    do_pane("editor", 3, &p, &mut out);
    assert_eq!(
        out,
        vec![
            s("tmux selectp -t 3"),
            s("tmux send-keys 'cd ./src' 'C-m'"),
            s("tmux select-pane -T 'editor'"),
            s("tmux send-keys 'export A=1' 'C-m'"),
            s("tmux send-keys 'export B=2' 'C-m'"),
            send_keys("make"),
            send_keys("ls -l"),
        ]
    );
}

#[test]
fn pane_without_directory_changes_to_none() {
    let p = pane("", &[], &[]);
    let mut out = vec![s("kept")];
    do_pane("p", 0, &p, &mut out);
    assert_eq!(out, vec!["kept", "tmux selectp -t 0", "tmux select-pane -T 'p'"]);
}

#[test]
fn pane_index_is_written_in_decimal() {
    let p = TmuxPane::default();
    for (index, text) in [
        (0usize, "0"),
        (7, "7"),
        (9, "9"),
        (10, "10"),
        (42, "42"),
        (100, "100"),
        (12345, "12345"),
    ] {
        let mut out = vec![];
        do_pane("p", index, &p, &mut out);
        assert_eq!(out[0], format!("tmux selectp -t {}", text));
    }
    let mut out = vec![];
    do_pane("p", usize::MAX, &p, &mut out);
    assert_eq!(out[0], format!("tmux selectp -t {}", usize::MAX));
}

#[test]
fn pane_texts_are_put_in_as_they_are() {
    let p = pane("it's here", &[("X Y", "a'b\"c")], &[]);
    let mut out = vec![];
    do_pane("na'me", 1, &p, &mut out);
    assert_eq!(
        out,
        vec![
            "tmux selectp -t 1",
            "tmux send-keys 'cd it's here' 'C-m'",
            "tmux select-pane -T 'na'me'",
            "tmux send-keys 'export X Y=a'b\"c' 'C-m'",
        ]
    );
}

#[test]
fn window_fills_its_panes_in_order_of_names() {
    let w = window(
        "./w",
        vec![
            ("zeta", pane("", &[], &["z"])),
            ("alpha", pane("./own", &[], &["a"])),
            ("mid", pane("", &[], &[])),
        ],
    );
    let mut out = vec![];
    do_window("ignored", &w, &mut out);
    assert_eq!(
        out,
        vec![
            s(SPLIT),
            s(TILED),
            s(SPLIT),
            s(TILED),
            s("tmux selectp -t 0"),
            s("tmux send-keys 'cd ./own' 'C-m'"),
            s("tmux select-pane -T 'alpha'"),
            send_keys("a"),
            s("tmux selectp -t 1"),
            s("tmux send-keys 'cd ./w' 'C-m'"),
            s("tmux select-pane -T 'mid'"),
            s("tmux selectp -t 2"),
            s("tmux send-keys 'cd ./w' 'C-m'"),
            s("tmux select-pane -T 'zeta'"),
            send_keys("z"),
        ]
    );
}

#[test]
fn window_without_panes_is_arranged_once() {
    let w = window("./w", vec![]);
    let mut out = vec![];
    do_window("w", &w, &mut out);
    assert_eq!(out, vec![TILED]);
}

#[test]
fn window_without_directory_leaves_its_panes_where_they_are() {
    let w = window("", vec![("only", pane("", &[], &[]))]);
    let mut out = vec![];
    do_window("w", &w, &mut out);
    assert_eq!(out, vec![TILED, "tmux selectp -t 0", "tmux select-pane -T 'only'"]);
}

#[test]
fn prepare_runs_the_start_commands_then_creates_the_session() {
    let l = layout("work", "", false, &["echo one", "echo  two "], vec![]);
    let mut out = vec![s("kept")];
    do_prepare(&l, &mut out);
    assert_eq!(out, vec!["kept", "echo one", "echo  two ", "tmux new-session -d -s work"]);
}

#[test]
fn prepare_kills_an_older_session_when_asked() {
    let l = layout("work", "", true, &[], vec![]);
    let mut out = vec![];
    do_prepare(&l, &mut out);
    assert_eq!(out, vec!["tmux kill-session -t work", "tmux new-session -d -s work"]);
}

#[test]
fn session_without_windows_is_only_prepared() {
    let plain = layout("s", "~/", false, &["date"], vec![]);
    assert_eq!(script(&plain), vec!["#!/bin/sh", "date", "tmux new-session -d -s s"]);
    let restarted = layout("s", "~/", true, &["date"], vec![]);
    assert_eq!(
        script(&restarted),
        vec!["#!/bin/sh", "date", "tmux kill-session -t s", "tmux new-session -d -s s"]
    );
    let bare = layout("s", "", false, &[], vec![]);
    assert_eq!(script(&bare), vec!["#!/bin/sh", "tmux new-session -d -s s"]);
}

#[test]
fn session_with_one_window_selects_none_at_the_end() {
    let l = layout("s", "", false, &[], vec![("main", window("", vec![]))]);
    assert_eq!(
        script(&l),
        vec!["#!/bin/sh", "tmux new-session -d -s s", "tmux rename-window 'main'", TILED]
    );
}

#[test]
fn session_with_more_windows_ends_on_the_first() {
    let l = layout(
        "s",
        "/srv",
        false,
        &[],
        vec![
            ("logs", window("/var/log", vec![("tail", pane("", &[], &[]))])),
            ("build", window("", vec![("make", pane("", &[], &[]))])),
            ("edit", window("", vec![("vim", pane("/home", &[], &[]))])),
        ],
    );
    assert_eq!(
        script(&l),
        vec![
            "#!/bin/sh",
            "tmux new-session -d -s s",
            "tmux rename-window 'build'",
            TILED,
            "tmux selectp -t 0",
            "tmux send-keys 'cd /srv' 'C-m'",
            "tmux select-pane -T 'make'",
            "tmux new-window -n 'edit'",
            TILED,
            "tmux selectp -t 0",
            "tmux send-keys 'cd /home' 'C-m'",
            "tmux select-pane -T 'vim'",
            "tmux new-window -n 'logs'",
            TILED,
            "tmux selectp -t 0",
            "tmux send-keys 'cd /var/log' 'C-m'",
            "tmux select-pane -T 'tail'",
            "tmux select-window -t 0",
        ]
    );
}

#[test]
fn script_is_appended_to_what_is_there() {
    let l = layout("s", "", false, &[], vec![]);
    let mut out = vec![s("# header")];
    do_parse(&l, &mut out);
    assert_eq!(out, vec!["# header", "#!/bin/sh", "tmux new-session -d -s s"]);
}

#[test]
fn script_does_not_depend_on_the_order_of_declaration() {
    let p1 = || pane("./1", &[("a", "b"), ("c", "d"), ("B", "e")], &["vim"]);
    let p1_turned = || pane("./1", &[("B", "e"), ("c", "d"), ("a", "b")], &["vim"]);
    let p2 = || pane("", &[], &["top", "ls"]);
    let w1 = || window("./w1", vec![("one", p1()), ("two", p2())]);
    let w1_turned = || window("./w1", vec![("two", p2()), ("one", p1_turned())]);
    let w2 = || window("", vec![("x", p2())]);
    let w3 = || window("./w3", vec![]);
    let first = layout("s", "~/", true, &["a", "b"], vec![("w1", w1()), ("w2", w2()), ("w3", w3())]);
    let second =
        layout("s", "~/", true, &["a", "b"], vec![("w3", w3()), ("w1", w1_turned()), ("w2", w2())]);
    let third =
        layout("s", "~/", true, &["a", "b"], vec![("w2", w2()), ("w3", w3()), ("w1", w1())]);
    assert_eq!(first, second);
    assert_eq!(script(&first), script(&second));
    assert_eq!(script(&first), script(&third));
    let lines = script(&first);
    let exports: Vec<&String> = lines.iter().filter(|l| l.contains("export")).collect();
    assert_eq!(
        exports,
        vec![
            "tmux send-keys 'export B=e' 'C-m'",
            "tmux send-keys 'export a=b' 'C-m'",
            "tmux send-keys 'export c=d' 'C-m'",
        ]
    );
}

#[test]
fn end_to_end_sample() {
    let l = layout(
        "sample",
        "~/",
        true,
        &["echo \"start\""],
        vec![(
            "window-1",
            window(
                "./w1",
                vec![
                    ("panel-1", pane("./1", &[("a", "b")], &["vim"])),
                    ("panel-2", pane("", &[], &["vim"])),
                ],
            ),
        )],
    );
    assert_eq!(
        script(&l),
        vec![
            s("#!/bin/sh"),
            s("echo \"start\""),
            s("tmux kill-session -t sample"),
            s("tmux new-session -d -s sample"),
            s("tmux rename-window 'window-1'"),
            s(SPLIT),
            s(TILED),
            s(TILED),
            s("tmux selectp -t 0"),
            s("tmux send-keys 'cd ./1' 'C-m'"),
            s("tmux select-pane -T 'panel-1'"),
            s("tmux send-keys 'export a=b' 'C-m'"),
            send_keys("vim"),
            s("tmux selectp -t 1"),
            s("tmux send-keys 'cd ./w1' 'C-m'"),
            s("tmux select-pane -T 'panel-2'"),
            send_keys("vim"),
        ]
    );
}
