use std::time::Duration;
use trace_tally::{
    Action, ActionSource, EventView, FrameWriter, Next, ProgressBar, RenderLoop, Renderer, Spinner, TaskId,
    TaskRenderer, TaskStore, TaskView, TreeIndent,
};

#[test]
fn spinner_cycles_through_its_frames() {
    let mut s = Spinner::line();
    assert_eq!(s.frame(), "|");
    s.tick();
    assert_eq!(s.frame(), "/");
    s.tick();
    assert_eq!(s.frame(), "-");
    s.tick();
    assert_eq!(s.frame(), "\\");
    s.tick();
    assert_eq!(s.frame(), "|");
}

#[test]
fn spinner_presets() {
    let mut d = Spinner::dots();
    assert_eq!(d.frame(), "⠋");
    for _ in 0..9 {
        d.tick();
    }
    assert_eq!(d.frame(), "⠏");
    d.tick();
    assert_eq!(d.frame(), "⠋");
    let mut a = Spinner::arrow();
    assert_eq!(a.frame(), "←");
    a.tick();
    assert_eq!(a.frame(), "↖");
    for _ in 0..7 {
        a.tick();
    }
    assert_eq!(a.frame(), "←");
    assert_eq!(Spinner::default().frame(), "⠋");
    let mut c = Spinner::custom(&["x"]);
    assert_eq!(c.frame(), "x");
    c.tick();
    assert_eq!(c.frame(), "x");
}

#[test]
fn progress_bar_parts() {
    let bar = ProgressBar::new(45, 100);
    let p = bar.parts();
    assert_eq!((p.done, p.total, p.width, p.filled, p.empty), (45, 100, 20, '█', '░'));
    let bar = bar.width(30).chars('#', '.');
    let p = bar.parts();
    assert_eq!((p.done, p.total, p.width, p.filled, p.empty), (45, 100, 30, '#', '.'));
}

fn tree() -> TaskStore<String, String> {
    let mut s = TaskStore::new();
    s.start(TaskId::from(1), None, "root task".to_string());
    s.start(TaskId::from(2), Some(TaskId::from(1)), "child 1".to_string());
    s.start(TaskId::from(3), Some(TaskId::from(2)), "grandchild a".to_string());
    s.start(TaskId::from(4), Some(TaskId::from(2)), "grandchild b".to_string());
    s.start(TaskId::from(5), Some(TaskId::from(1)), "child 2".to_string());
    s.start(TaskId::from(6), None, "other".to_string());
    s.start(TaskId::from(7), Some(TaskId::from(6)), "leaf".to_string());
    s
}

fn indent(s: &TaskStore<String, String>, id: usize) -> String {
    TreeIndent::of(&TaskView::new(s, TaskId(id))).as_str().to_string()
}

#[test]
fn tree_indent_draws_one_column_per_level() {
    let s = tree();
    assert_eq!(indent(&s, 0), "");
    assert_eq!(indent(&s, 1), "├── ");
    assert_eq!(indent(&s, 2), "│   ├── ");
    assert_eq!(indent(&s, 3), "│   │   ├── ");
    assert_eq!(indent(&s, 4), "│   │   └── ");
    assert_eq!(indent(&s, 5), "│   └── ");
    assert_eq!(indent(&s, 6), "└── ");
    assert_eq!(indent(&s, 7), "    └── ");
}

struct Lines;

impl Renderer for Lines {
    type EventData = String;
    type TaskData = String;

    fn on_render_start(&mut self) {}

    fn on_render_end(&mut self) {}

    fn render_event_line(
        &mut self,
        _f: &mut FrameWriter,
        _event: &EventView<'_, String, String>,
    ) -> Result<(), std::io::Error> {
        Ok(())
    }

    fn render_task_line(
        &mut self,
        f: &mut FrameWriter,
        task: &TaskView<'_, String, String>,
    ) -> Result<(), std::io::Error> {
        let mark = if task.cancelled() { "!" } else { "" };
        f.write_str(&format!("{}{}\n", mark, task.data()));
        Ok(())
    }
}

struct Queue {
    batches: Vec<Vec<Action<Lines>>>,
}

impl ActionSource<Lines> for Queue {
    fn drain_into(&mut self, renderer: &mut TaskRenderer<Lines>) -> bool {
        if self.batches.is_empty() {
            return false;
        }
        for action in self.batches.remove(0) {
            renderer.update(action);
        }
        !self.batches.is_empty()
    }
}

#[test]
fn render_loop_drains_renders_and_closes() {
    let mut source = Queue {
        batches: vec![
            vec![Action::TaskStart {
                id: TaskId::from(1),
                parent: None,
                data: "a".to_string(),
            }],
            vec![Action::TaskStart {
                id: TaskId::from(2),
                parent: None,
                data: "b".to_string(),
            }],
        ],
    };
    let mut run = RenderLoop::new(Lines).interval(Duration::from_millis(80));
    let (alive, frame, result) = run.tick(&mut source);
    assert!(alive);
    assert!(result.is_ok());
    assert_eq!(frame.active, b"a\n".to_vec());
    assert!(matches!(run.after_tick(alive, false), Next::Wait(d) if d == Duration::from_millis(80)));
    assert!(matches!(run.after_tick(alive, true), Next::Finish));
    assert!(matches!(run.after_wait(true), Next::Wait(d) if d == Duration::from_millis(80)));
    assert!(matches!(run.after_wait(false), Next::Finish));
    let (alive, frame, result) = run.tick(&mut source);
    assert!(!alive);
    assert!(result.is_ok());
    assert_eq!(frame.clear, b"\r\x1b[1A\x1b[2K\x1b[J".to_vec());
    assert_eq!(frame.active, b"a\nb\n".to_vec());
    assert!(matches!(run.after_tick(alive, false), Next::Finish));
    let (last, result) = run.finish().unwrap();
    assert!(result.is_ok());
    assert_eq!(last.clear, b"\r\x1b[2A\x1b[2K\x1b[J".to_vec());
    assert_eq!(last.flushed, b"!a\n!b\n".to_vec());
    assert!(last.active.is_empty());
    assert_eq!(run.renderer().tasks().len(), 1);
    assert_eq!(run.renderer().frame_lines(), 0);
}

#[test]
fn render_loop_may_leave_tasks_open() {
    let mut run = RenderLoop::new(Lines).cancel_on_close(false);
    let mut source = Queue {
        batches: vec![vec![Action::TaskStart {
            id: TaskId::from(1),
            parent: None,
            data: "a".to_string(),
        }]],
    };
    let (alive, _, _) = run.tick(&mut source);
    assert!(!alive);
    assert!(run.finish().is_none());
    assert!(run.renderer().tasks().contains(TaskId::from(1)));
    assert_eq!(run.renderer().frame_lines(), 1);
}

#[test]
fn render_loop_waits_a_tenth_of_a_second_by_default() {
    let run = RenderLoop::new(Lines);
    assert!(matches!(run.after_tick(true, false), Next::Wait(d) if d == Duration::from_millis(100)));
}
