use trace_tally::{
    Action, EventView, Frame, FrameWriter, Renderer, Retention, TaskId, TaskRenderer, TaskView,
};

pub struct VirtualTerm {
    pub lines: Vec<String>,
    pub cursor_row: usize,
    buf: Vec<u8>,
}

impl VirtualTerm {
    pub fn new() -> Self {
        Self {
            lines: vec![String::new()],
            cursor_row: 0,
            buf: Vec::new(),
        }
    }

    pub fn render(&self) -> String {
        self.lines.join("\n")
    }

    fn ensure_row(&mut self, row: usize) {
        while self.lines.len() <= row {
            self.lines.push(String::new());
        }
    }

    fn process(&mut self, s: &str) {
        if s.contains("\x1b[") {
            if let Some(pos) = s.find('A') {
                let num_str = &s[s.find('[').unwrap() + 1..pos];
                if let Ok(n) = num_str.parse::<usize>() {
                    self.cursor_row = self.cursor_row.saturating_sub(n);
                }
            }
            if s.contains("\x1b[2K") {
                self.ensure_row(self.cursor_row);
                self.lines[self.cursor_row].clear();
            }
            if s.contains("\x1b[J") {
                self.lines.truncate(self.cursor_row + 1);
            }
        } else {
            for c in s.chars() {
                match c {
                    '\n' => {
                        self.cursor_row += 1;
                        self.ensure_row(self.cursor_row);
                    }
                    _ => {
                        self.ensure_row(self.cursor_row);
                        self.lines[self.cursor_row].push(c);
                    }
                }
            }
        }
    }

    fn write(&mut self, buf: &[u8]) {
        self.buf.extend_from_slice(buf);
    }

    fn flush(&mut self) {
        if !self.buf.is_empty() {
            let s = String::from_utf8(std::mem::take(&mut self.buf)).unwrap();
            self.process(&s);
        }
    }

    fn show(&mut self, frame: &Frame) {
        self.write(&frame.clear);
        self.flush();
        self.write(&frame.flushed);
        self.write(&frame.active);
        self.flush();
    }
}

#[derive(Default)]
struct TestRenderer;

fn drawn<R: Renderer>(r: &mut TaskRenderer<R>) -> Frame {
    let (frame, result) = r.render();
    result.unwrap();
    frame
}

impl Renderer for TestRenderer {
    type EventData = String;
    type TaskData = String;

    fn on_render_start(&mut self) {}

    fn on_render_end(&mut self) {}

    fn render_task_line(
        &mut self,
        f: &mut FrameWriter,
        task: &TaskView<'_, String, String>,
    ) -> Result<(), std::io::Error> {
        let indent = " ".repeat(task.depth());
        f.write_str(&format!("{}{}\n", indent, task.data()));
        Ok(())
    }

    fn render_event_line(
        &mut self,
        f: &mut FrameWriter,
        event: &EventView<'_, String, String>,
    ) -> Result<(), std::io::Error> {
        let indent = " ".repeat(event.depth());
        f.write_str(&format!("{}{}\n", indent, event.data()));
        Ok(())
    }
}

struct TestEnv {
    term: VirtualTerm,
    writer: TaskRenderer<TestRenderer>,
    task: Option<TaskId>,
    counter: usize,
}

impl TestEnv {
    pub fn new() -> Self {
        Self {
            term: VirtualTerm::new(),
            writer: TaskRenderer::new(TestRenderer),
            task: None,
            counter: 1,
        }
    }

    fn event(&mut self, message: &str) {
        self.writer.update(Action::Event {
            parent: self.task,
            data: message.to_string(),
        });
    }

    fn span(&mut self, name: &str, f: impl FnOnce(&mut Self)) -> TaskId {
        let id = TaskId::new(self.counter);
        self.counter += 1;
        self.writer.update(Action::TaskStart {
            id,
            parent: self.task,
            data: name.to_string(),
        });
        self.task = Some(id);
        f(self);
        self.writer.update(Action::TaskEnd { id });
        self.task = None;
        id
    }

    fn render(&mut self) -> String {
        let frame = drawn(&mut self.writer);
        self.term.show(&frame);
        self.term.render()
    }
}

fn text(bytes: &[u8]) -> String {
    String::from_utf8(bytes.to_vec()).unwrap()
}

fn start(id: usize, parent: Option<usize>, data: &str) -> Action<TestRenderer> {
    Action::TaskStart {
        id: TaskId::from(id),
        parent: parent.map(TaskId::from),
        data: data.to_string(),
    }
}

fn event(parent: Option<usize>, data: &str) -> Action<TestRenderer> {
    Action::Event {
        parent: parent.map(TaskId::from),
        data: data.to_string(),
    }
}

fn end(id: usize) -> Action<TestRenderer> {
    Action::TaskEnd {
        id: TaskId::from(id),
    }
}

#[test]
fn test_virtual_term() {
    let mut env = TestEnv::new();
    env.event("test 1");
    assert_eq!(env.render(), "test 1\n");
}

#[test]
fn test_span_with_events() {
    let mut env = TestEnv::new();
    env.span("my-span", |env| {
        env.event("inside");
        assert_eq!(env.render(), " my-span\n inside\n");
    });
}

#[test]
fn test_nested_spans() {
    let mut env = TestEnv::new();
    env.span("outer", |env| {
        env.span("inner", |env| {
            env.event("deep");
            assert_eq!(env.render(), " outer\n  inner\n  deep\n");
        });
    });
}

#[test]
fn test_completed_span_removal() {
    let mut env = TestEnv::new();
    env.span("done", |_| {});
    env.render();
    env.event("after");
    assert_eq!(env.render(), " done\nafter\n");
}

#[test]
fn test_multiple_render_cycles() {
    let mut env = TestEnv::new();
    env.event("root");
    env.span("s", |env| {
        env.event("a");
        assert_eq!(env.render(), "root\n s\n a\n");
        env.event("b");
        assert_eq!(env.render(), "root\n s\n a\n b\n");
    });
}

#[test]
fn test_event_overflow() {
    let mut env = TestEnv::new();
    env.span("s", |env| {
        env.event("e1");
        env.event("e2");
        env.event("e3");
        env.event("e4");
        assert_eq!(env.render(), " s\n e2\n e3\n e4\n");
    });
}

#[test]
fn nested_completed_task_stays_in_the_live_region() {
    let mut r = TaskRenderer::new(TestRenderer);
    r.update(start(1, None, "build"));
    r.update(start(2, Some(1), "compile"));
    r.update(event(Some(2), "parsing"));
    r.update(end(2));
    let frame = drawn(&mut r);
    assert_eq!(text(&frame.clear), "");
    assert_eq!(text(&frame.flushed), "");
    assert_eq!(text(&frame.active), " build\n  compile\n");
    assert_eq!(r.frame_lines(), 2);
    assert!(r.tasks().contains(TaskId::from(1)));
    assert!(r.tasks().contains(TaskId::from(2)));
    assert!(r.tasks().task(&TaskId::from(2)).completed());
    assert_eq!(r.tasks().task(&TaskId::from(2)).depth(), 2);
    assert_eq!(r.tasks().task(&TaskId::from(1)).depth(), 1);
}

#[test]
fn completed_root_task_is_flushed_once_and_removed() {
    let mut r = TaskRenderer::new(TestRenderer);
    r.update(start(1, None, "job"));
    r.update(end(1));
    let frame = drawn(&mut r);
    assert_eq!(text(&frame.flushed), " job\n");
    assert_eq!(text(&frame.active), "");
    assert!(!r.tasks().contains(TaskId::from(1)));
    assert_eq!(r.tasks().len(), 1);
    assert_eq!(r.tasks().task(&TaskId::root()).subtask_count(), 0);
    let again = drawn(&mut r);
    assert_eq!(text(&again.flushed), "");
    assert_eq!(text(&again.active), "");
    assert_eq!(text(&again.clear), "");
}

#[test]
fn root_event_is_flushed_exactly_once() {
    let mut r = TaskRenderer::new(TestRenderer);
    r.update(event(None, "hello"));
    let frame = drawn(&mut r);
    assert_eq!(text(&frame.flushed), "hello\n");
    assert_eq!(text(&frame.active), "");
    let again = drawn(&mut r);
    assert_eq!(text(&again.flushed), "");
    assert_eq!(text(&again.active), "");
}

#[test]
fn next_frame_erases_exactly_the_lines_drawn() {
    let mut r = TaskRenderer::new(TestRenderer);
    r.update(start(1, None, "a"));
    r.update(start(2, Some(1), "b"));
    r.update(start(3, None, "c"));
    let first = drawn(&mut r);
    assert_eq!(text(&first.active), " a\n  b\n c\n");
    assert_eq!(r.frame_lines(), 3);
    let second = drawn(&mut r);
    assert_eq!(second.clear, b"\r\x1b[3A\x1b[2K\x1b[J".to_vec());
    assert_eq!(text(&second.active), " a\n  b\n c\n");
}

#[test]
fn completed_root_task_is_flushed_with_its_whole_subtree() {
    let mut r = TaskRenderer::new(TestRenderer);
    r.update(start(1, None, "a"));
    r.update(start(2, Some(1), "b"));
    r.update(start(3, Some(2), "c"));
    r.update(start(4, None, "d"));
    r.update(event(Some(3), "deep"));
    r.update(end(1));
    let frame = drawn(&mut r);
    assert_eq!(text(&frame.flushed), " a\n  b\n   c\n   deep\n");
    assert_eq!(text(&frame.active), " d\n");
    assert!(!r.tasks().contains(TaskId::from(1)));
    assert!(!r.tasks().contains(TaskId::from(2)));
    assert!(!r.tasks().contains(TaskId::from(3)));
    assert!(r.tasks().contains(TaskId::from(4)));
    assert_eq!(r.tasks().len(), 2);
    let root = r.tasks().task(&TaskId::root());
    assert_eq!(root.subtask_count(), 1);
    assert_eq!(root.subtask(0), TaskId::from(4));
}

#[test]
fn cancel_all_flushes_every_open_task() {
    let mut r = TaskRenderer::new(TestRenderer);
    r.update(start(1, None, "a"));
    r.update(start(2, Some(1), "b"));
    r.update(start(3, None, "c"));
    r.update(Action::CancelAll);
    assert!(r.tasks().task(&TaskId::from(1)).cancelled());
    assert!(r.tasks().task(&TaskId::from(2)).cancelled());
    assert!(r.tasks().task(&TaskId::from(3)).cancelled());
    assert!(!r.tasks().task(&TaskId::root()).cancelled());
    r.update(Action::CancelAll);
    assert!(r.tasks().task(&TaskId::from(1)).cancelled());
    assert!(r.tasks().task(&TaskId::from(2)).cancelled());
    assert!(r.tasks().task(&TaskId::from(3)).cancelled());
    assert!(!r.tasks().task(&TaskId::root()).cancelled());
    let frame = drawn(&mut r);
    assert_eq!(text(&frame.flushed), " a\n  b\n c\n");
    assert_eq!(text(&frame.active), "");
    assert_eq!(r.tasks().len(), 1);
}

#[test]
fn event_for_unknown_parent_goes_to_the_root() {
    let mut r = TaskRenderer::new(TestRenderer);
    r.update(start(1, None, "a"));
    r.update(event(Some(42), "stray"));
    assert_eq!(r.tasks().task(&TaskId::root()).events().len(), 1);
    assert_eq!(r.tasks().task(&TaskId::root()).events()[0], "stray");
    assert_eq!(r.tasks().task(&TaskId::from(1)).events().len(), 0);
    let frame = drawn(&mut r);
    assert_eq!(text(&frame.flushed), "stray\n");
    assert_eq!(text(&frame.active), " a\n");
}

#[test]
fn root_keeps_every_event_until_the_flush() {
    let mut r = TaskRenderer::new(TestRenderer);
    for i in 0..10 {
        r.update(event(None, &format!("e{}", i)));
    }
    assert_eq!(r.tasks().task(&TaskId::root()).events().len(), 10);
    let frame = drawn(&mut r);
    assert_eq!(
        text(&frame.flushed),
        "e0\ne1\ne2\ne3\ne4\ne5\ne6\ne7\ne8\ne9\n"
    );
    assert_eq!(r.tasks().task(&TaskId::root()).events().len(), 0);
}

#[test]
fn task_for_unknown_parent_hangs_below_the_root() {
    let mut r = TaskRenderer::new(TestRenderer);
    r.update(start(5, Some(77), "orphan"));
    let task = r.tasks().task(&TaskId::from(5));
    assert_eq!(task.depth(), 1);
    assert_eq!(task.parent(), None);
    let root = r.tasks().task(&TaskId::root());
    assert_eq!(root.subtask_count(), 1);
    assert_eq!(root.subtask(0), TaskId::from(5));
}

#[test]
fn end_of_unknown_task_changes_nothing() {
    let mut r = TaskRenderer::new(TestRenderer);
    r.update(start(1, None, "a"));
    r.update(end(9));
    assert_eq!(r.tasks().len(), 2);
    assert!(!r.tasks().task(&TaskId::from(1)).completed());
    r.update(Action::TaskEnd { id: TaskId::root() });
    assert!(!r.tasks().task(&TaskId::root()).completed());
}

struct Failing;

impl Renderer for Failing {
    type EventData = String;
    type TaskData = String;

    fn on_render_start(&mut self) {}

    fn on_render_end(&mut self) {}

    fn render_event_line(
        &mut self,
        _f: &mut FrameWriter,
        _event: &EventView<'_, String, String>,
    ) -> Result<(), std::io::Error> {
        Ok(())
    }

    fn render_task_line(
        &mut self,
        f: &mut FrameWriter,
        _task: &TaskView<'_, String, String>,
    ) -> Result<(), std::io::Error> {
        f.write_str("x\n");
        Err(std::io::Error::new(std::io::ErrorKind::Other, "no"))
    }
}

#[test]
fn failed_render_leaves_the_line_count() {
    let mut r = TaskRenderer::new(Failing);
    r.update(Action::TaskStart {
        id: TaskId::from(1),
        parent: None,
        data: "a".to_string(),
    });
    let (frame, result) = r.render();
    assert!(result.is_err());
    assert_eq!(frame.active, b"x\n".to_vec());
    assert!(frame.flushed.is_empty());
    assert_eq!(r.frame_lines(), 0);
    assert!(r.tasks().contains(TaskId::from(1)));
}

struct KeepAll {
    starts: usize,
    ends: usize,
}

impl Renderer for KeepAll {
    type EventData = u32;
    type TaskData = u32;

    fn on_render_start(&mut self) {
        self.starts += 1;
    }

    fn on_render_end(&mut self) {
        self.ends += 1;
    }

    fn retention(&self) -> Retention {
        Retention::KeepAll
    }

    fn render_task_line(
        &mut self,
        _f: &mut FrameWriter,
        _task: &TaskView<'_, u32, u32>,
    ) -> Result<(), std::io::Error> {
        Ok(())
    }

    fn render_event_line(
        &mut self,
        _f: &mut FrameWriter,
        _event: &EventView<'_, u32, u32>,
    ) -> Result<(), std::io::Error> {
        Ok(())
    }

    fn render_task(
        &mut self,
        f: &mut FrameWriter,
        task: &TaskView<'_, u32, u32>,
    ) -> Result<(), std::io::Error> {
        f.write_str(&format!("{}:", task.data()));
        for e in task.events() {
            f.write_str(&format!(" {}", e.data()));
        }
        f.write_str("\n");
        Ok(())
    }
}

#[test]
fn renderer_chooses_the_retention_rule() {
    let mut r = TaskRenderer::new(KeepAll { starts: 0, ends: 0 });
    assert_eq!(r.tasks().retention(), Retention::KeepAll);
    r.update(Action::TaskStart {
        id: TaskId::from(1),
        parent: None,
        data: 7,
    });
    for i in 0..5 {
        r.update(Action::Event {
            parent: Some(TaskId::from(1)),
            data: i,
        });
    }
    let frame = drawn(&mut r);
    assert_eq!(text(&frame.active), "7: 0 1 2 3 4\n");
    assert_eq!(r.frame_lines(), 1);
    let again = drawn(&mut r);
    assert_eq!(text(&again.active), "7: 0 1 2 3 4\n");
}

#[test]
fn standard_renderer_writes_nothing() {
    struct Silent;
    impl Renderer for Silent {
        type EventData = String;
        type TaskData = String;

        fn on_render_start(&mut self) {}

        fn on_render_end(&mut self) {}

        fn render_task_line(
            &mut self,
            _f: &mut FrameWriter,
            _task: &TaskView<'_, String, String>,
        ) -> Result<(), std::io::Error> {
            Ok(())
        }

        fn render_event_line(
            &mut self,
            _f: &mut FrameWriter,
            _event: &EventView<'_, String, String>,
        ) -> Result<(), std::io::Error> {
            Ok(())
        }
    }
    let mut r = TaskRenderer::new(Silent);
    assert_eq!(r.tasks().retention(), Retention::Rolling(3));
    r.update(Action::TaskStart {
        id: TaskId::from(1),
        parent: None,
        data: "a".to_string(),
    });
    r.update(Action::Event {
        parent: None,
        data: "e".to_string(),
    });
    let frame = drawn(&mut r);
    assert!(frame.clear.is_empty());
    assert!(frame.flushed.is_empty());
    assert!(frame.active.is_empty());
    assert_eq!(r.frame_lines(), 0);
}

#[test]
fn children_are_drawn_in_the_order_they_started() {
    let mut r = TaskRenderer::new(TestRenderer);
    r.update(start(1, None, "a"));
    r.update(start(2, Some(1), "b"));
    r.update(start(3, Some(1), "c"));
    r.update(start(4, Some(2), "d"));
    r.update(start(5, Some(3), "e"));
    r.update(start(6, None, "f"));
    let frame = drawn(&mut r);
    assert_eq!(text(&frame.active), " a\n  b\n   d\n  c\n   e\n f\n");
    assert_eq!(r.frame_lines(), 6);
}

struct Hooked {
    log: std::rc::Rc<std::cell::RefCell<Vec<String>>>,
    fail_on: Option<String>,
}

impl Renderer for Hooked {
    type EventData = String;
    type TaskData = String;

    fn on_render_start(&mut self) {
        self.log.borrow_mut().push("start".to_string());
    }

    fn on_render_end(&mut self) {
        self.log.borrow_mut().push("end".to_string());
    }

    fn render_task_line(
        &mut self,
        f: &mut FrameWriter,
        task: &TaskView<'_, String, String>,
    ) -> Result<(), std::io::Error> {
        self.log.borrow_mut().push(format!("task {}", task.data()));
        f.write_str(&format!("{}\n", task.data()));
        if self.fail_on.as_deref() == Some(task.data().as_str()) {
            return Err(std::io::Error::new(std::io::ErrorKind::Other, "no"));
        }
        Ok(())
    }

    fn render_event_line(
        &mut self,
        f: &mut FrameWriter,
        event: &EventView<'_, String, String>,
    ) -> Result<(), std::io::Error> {
        self.log.borrow_mut().push(format!("event {}", event.data()));
        f.write_str(&format!("{}\n", event.data()));
        Ok(())
    }
}

fn hooked(fail_on: Option<&str>) -> (TaskRenderer<Hooked>, std::rc::Rc<std::cell::RefCell<Vec<String>>>) {
    let log = std::rc::Rc::new(std::cell::RefCell::new(Vec::new()));
    let mut r = TaskRenderer::new(Hooked {
        log: log.clone(),
        fail_on: fail_on.map(|s| s.to_string()),
    });
    r.update(Action::TaskStart { id: TaskId::from(1), parent: None, data: "open".to_string() });
    r.update(Action::TaskStart { id: TaskId::from(2), parent: None, data: "done".to_string() });
    r.update(Action::TaskStart { id: TaskId::from(3), parent: Some(TaskId::from(2)), data: "below".to_string() });
    r.update(Action::Event { parent: None, data: "first".to_string() });
    r.update(Action::Event { parent: None, data: "second".to_string() });
    r.update(Action::Event { parent: Some(TaskId::from(1)), data: "inner".to_string() });
    r.update(Action::TaskEnd { id: TaskId::from(2) });
    (r, log)
}

#[test]
fn pass_calls_hooks_events_done_tasks_then_open_tasks() {
    let (mut r, log) = hooked(None);
    let frame = drawn(&mut r);
    assert_eq!(
        *log.borrow(),
        vec![
            "start", "event first", "event second", "task done", "task below", "task open",
            "event inner", "end"
        ]
    );
    assert_eq!(text(&frame.flushed), "first\nsecond\ndone\nbelow\n");
    assert_eq!(text(&frame.active), "open\ninner\n");
    assert_eq!(r.frame_lines(), 2);
    log.borrow_mut().clear();
    let next = drawn(&mut r);
    assert_eq!(*log.borrow(), vec!["start", "task open", "event inner", "end"]);
    assert_eq!(next.clear, b"\r\x1b[2A\x1b[2K\x1b[J".to_vec());
    assert_eq!(text(&next.flushed), "");
    assert_eq!(text(&next.active), "open\ninner\n");
}

#[test]
fn failure_in_the_flush_pass_ends_the_pass() {
    let (mut r, log) = hooked(Some("done"));
    let (frame, result) = r.render();
    assert!(result.is_err());
    assert_eq!(*log.borrow(), vec!["start", "event first", "event second", "task done"]);
    assert_eq!(text(&frame.flushed), "first\nsecond\ndone\n");
    assert_eq!(text(&frame.active), "");
    assert_eq!(r.frame_lines(), 0);
    // the root's events are gone, the tasks are all there
    assert_eq!(r.tasks().task(&TaskId::root()).events().len(), 0);
    assert!(r.tasks().contains(TaskId::from(2)));
    assert!(r.tasks().contains(TaskId::from(3)));
}

#[test]
fn failure_in_the_live_pass_keeps_the_line_count() {
    let (mut r, log) = hooked(Some("open"));
    let (frame, result) = r.render();
    assert!(result.is_err());
    assert_eq!(
        *log.borrow(),
        vec!["start", "event first", "event second", "task done", "task below", "task open"]
    );
    assert_eq!(text(&frame.flushed), "first\nsecond\ndone\nbelow\n");
    assert_eq!(text(&frame.active), "open\n");
    assert_eq!(r.frame_lines(), 0);
    assert!(!r.tasks().contains(TaskId::from(2)));
    assert!(r.tasks().contains(TaskId::from(1)));
}
