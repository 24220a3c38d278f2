use serde_yaml::Value;
use tmuxlayout::{
    do_parse, do_preare_panel_tiled, send_keys, OrderedMap, TmuxLayout, TmuxPane, TmuxWindow,
};

fn scalar(value: &Value) -> String {
    match value {
        Value::String(s) => s.clone(),
        Value::Number(n) => n.to_string(),
        Value::Bool(b) => b.to_string(),
        other => panic!("not a scalar: {:?}", other),
    }
}

fn field<'a>(value: &'a Value, name: &str) -> Option<&'a Value> {
    value.as_mapping().and_then(|m| m.get(name))
}

fn text_field(value: &Value, name: &str) -> String {
    field(value, name).map(scalar).unwrap_or_default()
}

fn list_field(value: &Value, name: &str) -> Vec<String> {
    match field(value, name).and_then(|v| v.as_sequence()) {
        Some(items) => items.iter().map(scalar).collect(),
        None => Vec::new(),
    }
}

fn pane_from(value: &Value) -> TmuxPane {
    let mut env = OrderedMap::new();
    if let Some(vars) = field(value, "env").and_then(|v| v.as_mapping()) {
        for (name, val) in vars.iter() {
            env.insert(scalar(name), scalar(val));
        }
    }
    TmuxPane { root: text_field(value, "root"), env, cmds: list_field(value, "cmds") }
}

fn window_from(value: &Value) -> TmuxWindow {
    let mut panes = OrderedMap::new();
    let listed = field(value, "panes").and_then(|v| v.as_mapping()).expect("panes");
    for (name, pane) in listed.iter() {
        panes.insert(scalar(name), pane_from(pane));
    }
    TmuxWindow { root: text_field(value, "root"), panes }
}

fn layout_from(yaml: &str) -> TmuxLayout {
    let doc: Value = serde_yaml::from_str(yaml).expect("yaml");
    let mut windows = OrderedMap::new();
    let listed = field(&doc, "windows").and_then(|v| v.as_mapping()).expect("windows");
    for (name, window) in listed.iter() {
        windows.insert(scalar(name), window_from(window));
    }
    TmuxLayout {
        name: scalar(field(&doc, "name").expect("name")),
        root: text_field(&doc, "root"),
        restart_if_exists: field(&doc, "restart_if_exists")
            .and_then(|v| v.as_bool())
            .unwrap_or(false),
        on_start: list_field(&doc, "on_start"),
        windows,
    }
}

fn parse(yml: &str) -> Vec<String> {
    let layout = layout_from(yml);
    let mut out = vec![];
    do_parse(&layout, &mut out);
    out
}

fn assert_parse(yaml: &str, bash: &str) {
    let ret_bash = parse(yaml);
    println!("{}", ret_bash.join("\n"));
    assert_eq!(bash, ret_bash.join("\n"));
}

fn assert_preare_panel_tiled(count: usize, bash: &str) {
    let mut out = vec![];
    do_preare_panel_tiled(count, &mut out);
    let bash: Vec<String> = bash.lines().map(|s| s.to_string()).collect();
    for i in 0..out.len() {
        assert_eq!(out[i], bash[i]);
    }
}

#[test]
fn test_layout() {
    let example_config = r#"name: sample
root: ~/
restart_if_exists: true
windows:
    window-1:
        panes:
            panel-1:
                env: 
                    ENVA: b
                    ENVB: 10
                root: ./1
                cmds:
                    - echo "a1"
                    - echo "b1"
            panel-2:
                cmds:
                    - echo "a2"
                    - echo "b2"        
            panel-3:
                root: ./3

"#;
    let mut env = OrderedMap::new();
    env.insert("ENVA".to_string(), "b".to_string());
    env.insert("ENVB".to_string(), "10".to_string());
    let mut panes = OrderedMap::new();
    panes.insert(
        "panel-1".to_string(),
        TmuxPane {
            root: "./1".to_string(),
            env,
            cmds: vec![r#"echo "a1""#.to_string(), r#"echo "b1""#.to_string()],
        },
    );
    panes.insert(
        "panel-2".to_string(),
        TmuxPane {
            root: "".to_string(),
            env: Default::default(),
            cmds: vec![r#"echo "a2""#.to_string(), r#"echo "b2""#.to_string()],
        },
    );
    panes.insert(
        "panel-3".to_string(),
        TmuxPane { root: "./3".to_string(), env: Default::default(), cmds: vec![] },
    );
    let mut windows = OrderedMap::new();
    windows.insert("window-1".to_owned(), TmuxWindow { root: "".to_string(), panes });
    let layout = TmuxLayout {
        name: "sample".to_string(),
        root: "~/".to_string(),
        restart_if_exists: true,
        on_start: vec![],
        windows,
    };
    assert_eq!(layout_from(example_config), layout);
}

#[test]
fn test_parse() {
    let example_config = r#"name: sample
root: ~/
restart_if_exists: true
on_start:
        - echo "start"
windows:
    window-1:
        root: ./w1
        panes:                        
           panel-1:  
                env:
                    a: b
                root: ./1              
                cmds:
                    - vim
           panel-2:                
                cmds:
                    - vim

"#;
    let expect_bash = r#"#!/bin/sh
echo "start"
tmux kill-session -t sample
tmux new-session -d -s sample
tmux rename-window 'window-1'
tmux splitw -h
tmux select-layout tiled
tmux select-layout tiled
tmux selectp -t 0
tmux send-keys 'cd ./1' 'C-m'
tmux select-pane -T 'panel-1'
tmux send-keys 'export a=b' 'C-m'
cmd=$(cat <<EOF
vim
EOF
); tmux send-keys "$cmd" 'C-m'
    
tmux selectp -t 1
tmux send-keys 'cd ./w1' 'C-m'
tmux select-pane -T 'panel-2'
cmd=$(cat <<EOF
vim
EOF
); tmux send-keys "$cmd" 'C-m'
    "#;

    assert_parse(example_config, expect_bash);
}

#[test]
fn test_do_preare_panel_tiled() {
    assert_preare_panel_tiled(
        4,
        r#"tmux splitw -h
tmux select-layout tiled
tmux splitw -h
tmux splitw -h
tmux select-layout tiled
tmux select-layout tiled"#,
    );
}

#[test]
fn test_send_keys() {
    let cmd = r#"tmux-send-key-to-pane "eyes" C-c  '  sudo bpftrace -v  ./actions/http-handle-event.trace' C-m"#;
    let ret = send_keys(cmd);
    println!("{}", ret);
    assert_eq!(
        ret,
        r#"cmd=$(cat <<EOF
tmux-send-key-to-pane "eyes" C-c  '  sudo bpftrace -v  ./actions/http-handle-event.trace' C-m
EOF
); tmux send-keys "$cmd" 'C-m'
    "#
    )
}
