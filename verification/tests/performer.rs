use blockwheel::block::{Bytes, BytesMut, Id};
use blockwheel::lru::Cache;
use blockwheel::performer::{
    DefragConfig, DeleteBlockOp, EventOp, InfoOp, LendBlockOp, Op, Performer, QueryOp,
    ReadBlockOp, WriteBlockOp,
};
use blockwheel::proto::{
    Request, RequestDeleteBlock, RequestFlush, RequestInfo, RequestLendBlock, RequestReadBlock,
    RequestRepayBlock, RequestWriteBlock,
};
use blockwheel::schema::Schema;
use blockwheel::task::{
    Done, Task, TaskDone, TaskDoneDeleteBlock, TaskDoneFlush, TaskDoneKind, TaskDoneReadBlock,
    TaskDoneWriteBlock, TaskKind,
};

#[derive(Debug, PartialEq, Clone)]
enum Ev {
    LendSuccess,
    WriteDone(u64, u64),
    WriteNoSpace(u64),
    ReadDone(u64, Vec<u8>),
    ReadNotFound(u64),
    DeleteDone(u64, u64),
    DeleteNotFound(u64),
    Flushed(u64),
    Info(u64, usize),
}

struct Harness {
    op: Option<Op<u64>>,
    file: Vec<u8>,
    pending: Option<Done<u64>>,
    lent: Option<BytesMut>,
    io_log: Vec<(&'static str, u64)>,
    events: Vec<Ev>,
}

impl Harness {
    fn new(size_limit: u64, defrag_limit: Option<usize>) -> Harness {
        let schema: Schema<u64> = Schema::new(size_limit);
        let cache = Cache::new();
        let defrag = defrag_limit.map(DefragConfig::new);
        let performer = Performer::new(schema, cache, defrag);
        Harness {
            op: Some(performer.next()),
            file: vec![0u8; size_limit as usize],
            pending: None,
            lent: None,
            io_log: Vec::new(),
            events: Vec::new(),
        }
    }

    fn record(&mut self, evop: EventOp<u64>) {
        match evop {
            EventOp::LendBlock(td) => match td.op {
                LendBlockOp::Success { block_bytes } => {
                    self.lent = Some(block_bytes);
                    self.events.push(Ev::LendSuccess);
                }
            },
            EventOp::WriteBlock(td) => match td.op {
                WriteBlockOp::Done { block_id } => {
                    self.events.push(Ev::WriteDone(td.context, block_id.serial))
                }
                WriteBlockOp::NoSpaceLeft => self.events.push(Ev::WriteNoSpace(td.context)),
            },
            EventOp::ReadBlock(td) => match td.op {
                ReadBlockOp::Done { block_bytes } => self
                    .events
                    .push(Ev::ReadDone(td.context, block_bytes.as_slice().to_vec())),
                ReadBlockOp::NotFound => self.events.push(Ev::ReadNotFound(td.context)),
            },
            EventOp::DeleteBlock(td) => match td.op {
                DeleteBlockOp::Done { block_id } => {
                    self.events.push(Ev::DeleteDone(td.context, block_id.serial))
                }
                DeleteBlockOp::NotFound => self.events.push(Ev::DeleteNotFound(td.context)),
            },
            EventOp::Flush(td) => self.events.push(Ev::Flushed(td.context)),
            EventOp::Info(td) => match td.op {
                InfoOp::Success { info } => {
                    self.events.push(Ev::Info(td.context, info.blocks_count))
                }
            },
        }
    }

    fn run_task(&mut self, offset: u64, task: Task<u64>) -> Done<u64> {
        let block_id = task.block_id;
        match task.kind {
            TaskKind::WriteBlock(wb) => {
                let data = wb.block_bytes.as_slice().to_vec();
                let off = offset as usize;
                self.file[off..off + data.len()].copy_from_slice(&data);
                self.io_log.push(("write", offset));
                Done {
                    current_offset: offset + data.len() as u64,
                    task: TaskDone {
                        block_id,
                        kind: TaskDoneKind::WriteBlock(TaskDoneWriteBlock {
                            context: wb.context,
                        }),
                    },
                }
            }
            TaskKind::ReadBlock(rb) => {
                let size = rb.block_header.block_size as usize;
                let mut buf = rb.block_bytes;
                buf.clear();
                let off = offset as usize;
                for i in 0..size {
                    buf.push(self.file[off + i]);
                }
                self.io_log.push(("read", offset));
                Done {
                    current_offset: offset + size as u64,
                    task: TaskDone {
                        block_id,
                        kind: TaskDoneKind::ReadBlock(TaskDoneReadBlock {
                            block_bytes: buf,
                            context: rb.context,
                        }),
                    },
                }
            }
            TaskKind::DeleteBlock(db) => {
                self.io_log.push(("delete", offset));
                Done {
                    current_offset: offset,
                    task: TaskDone {
                        block_id,
                        kind: TaskDoneKind::DeleteBlock(TaskDoneDeleteBlock {
                            context: db.context,
                        }),
                    },
                }
            }
            TaskKind::Flush(f) => {
                self.io_log.push(("flush", offset));
                Done {
                    current_offset: offset,
                    task: TaskDone {
                        block_id,
                        kind: TaskDoneKind::Flush(TaskDoneFlush { context: f.context }),
                    },
                }
            }
        }
    }

    /// Advances until the machine polls for input.
    fn run_to_input(&mut self) {
        loop {
            match self.op.take().unwrap() {
                Op::Idle(p) => {
                    self.op = Some(p.next());
                }
                Op::Event(e) => {
                    self.record(e.op);
                    self.op = Some(e.performer.next());
                }
                Op::Query(QueryOp::InterpretTask(it)) => {
                    // the machine never hands out two tasks at once
                    assert!(self.pending.is_none());
                    let done = self.run_task(it.offset, it.task);
                    self.pending = Some(done);
                    let p = it.next.task_accepted(99);
                    self.op = Some(p.next());
                }
                q @ Op::Query(QueryOp::PollRequest(_)) => {
                    self.op = Some(q);
                    return;
                }
                q @ Op::Query(QueryOp::PollRequestAndInterpreter(_)) => {
                    self.op = Some(q);
                    return;
                }
            }
        }
    }

    fn request(&mut self, request: Request<u64>) {
        match self.op.take().unwrap() {
            Op::Query(QueryOp::PollRequest(pr)) => {
                self.op = Some(pr.next.incoming_request(request));
            }
            Op::Query(QueryOp::PollRequestAndInterpreter(pi)) => {
                let ictx = pi.interpreter_context;
                self.op = Some(pi.next.incoming_request(request, ictx));
            }
            _ => panic!("not at a poll point"),
        }
    }

    fn complete(&mut self) {
        match self.op.take().unwrap() {
            Op::Query(QueryOp::PollRequestAndInterpreter(pi)) => {
                let done = self.pending.take().unwrap();
                self.op = Some(pi.next.incoming_task_done(done));
            }
            _ => panic!("no task in flight"),
        }
    }

    /// Runs to quiescence: completions are delivered as they arise.
    fn settle(&mut self) {
        loop {
            self.run_to_input();
            let in_flight = matches!(
                self.op.as_ref().unwrap(),
                Op::Query(QueryOp::PollRequestAndInterpreter(_))
            );
            if in_flight {
                self.complete();
            } else {
                return;
            }
        }
    }

    fn do_request(&mut self, request: Request<u64>) {
        self.run_to_input();
        self.request(request);
    }

    fn write(&mut self, data: &[u8], context: u64) {
        self.do_request(Request::WriteBlock(RequestWriteBlock {
            block_bytes: Bytes::from_vec(data.to_vec()),
            context,
        }));
    }

    fn read(&mut self, serial: u64, context: u64) {
        self.do_request(Request::ReadBlock(RequestReadBlock {
            block_id: Id::new(serial),
            context,
        }));
    }

    fn delete(&mut self, serial: u64, context: u64) {
        self.do_request(Request::DeleteBlock(RequestDeleteBlock {
            block_id: Id::new(serial),
            context,
        }));
    }
}

#[test]
fn write_then_read() {
    let mut h = Harness::new(10_000, None);
    // lend a buffer, fill it, write it, read the block back
    h.do_request(Request::LendBlock(RequestLendBlock { context: 0 }));
    h.run_to_input();
    let mut buf = h.lent.take().unwrap();
    buf.clear();
    buf.push(0x01);
    buf.push(0x02);
    buf.push(0x03);
    h.request(Request::WriteBlock(RequestWriteBlock {
        block_bytes: buf.freeze(),
        context: 1,
    }));
    h.settle();
    h.read(1, 2);
    h.settle();
    assert_eq!(
        h.events,
        vec![
            Ev::LendSuccess,
            Ev::WriteDone(1, 1),
            Ev::ReadDone(2, vec![0x01, 0x02, 0x03]),
        ]
    );
    assert_eq!(h.io_log, vec![("write", 0), ("read", 0)]);
}

#[test]
fn read_cache_hit() {
    let mut h = Harness::new(10_000, None);
    h.write(&[0x01, 0x02, 0x03], 1);
    h.settle();
    h.read(1, 2);
    h.settle();
    let io_before = h.io_log.len();
    // the second read is served from the cache: no interpreter involved
    h.read(1, 3);
    h.settle();
    assert_eq!(h.io_log.len(), io_before);
    assert_eq!(
        h.events.last().unwrap(),
        &Ev::ReadDone(3, vec![0x01, 0x02, 0x03])
    );
}

#[test]
fn delete_while_read_queued() {
    let mut h = Harness::new(10_000, None);
    h.write(&[7, 7, 7, 7], 1);
    // run until the write task is with the interpreter, hold its completion
    h.run_to_input();
    assert!(h.pending.is_some());
    // queue a read and a delete behind the in-flight write
    h.request(Request::ReadBlock(RequestReadBlock {
        block_id: Id::new(1),
        context: 2,
    }));
    h.run_to_input();
    h.request(Request::DeleteBlock(RequestDeleteBlock {
        block_id: Id::new(1),
        context: 3,
    }));
    // now deliver the write completion and drain everything
    h.settle();
    assert_eq!(
        h.events,
        vec![
            Ev::WriteDone(1, 1),
            Ev::DeleteDone(3, 1),
            Ev::ReadNotFound(2),
        ]
    );
}

#[test]
fn no_space_left_without_defrag() {
    let mut h = Harness::new(4, None);
    h.write(&[1, 2, 3, 4, 5, 6, 7, 8, 9, 10], 1);
    h.settle();
    assert_eq!(h.events, vec![Ev::WriteNoSpace(1)]);
    assert_eq!(h.io_log, Vec::<(&str, u64)>::new());
}

#[test]
fn pending_defrag_holds_unplaceable_write() {
    // fill the file, free a fragment, then ask for more than any fragment
    let mut h = Harness::new(100, Some(1));
    h.write(&[1u8; 60], 1);
    h.settle();
    h.write(&[2u8; 40], 2);
    h.settle();
    h.delete(1, 3);
    h.settle();
    let events_before = h.events.len();
    h.write(&[3u8; 80], 4);
    h.settle();
    // the write is held for the defragmentation pipeline: no reply yet
    assert_eq!(h.events.len(), events_before);
}

#[test]
fn defrag_move_preserves_reads() {
    let mut h = Harness::new(1_000, Some(1));
    h.write(&[0xAAu8; 100], 1); // block 1 at offset 0
    h.settle();
    let payload: Vec<u8> = (0..100u32).map(|i| (i % 251) as u8).collect();
    h.write(&payload, 2); // block 2 at offset 100
    h.settle();
    let io_setup = h.io_log.len();
    // deleting block 1 leaves a gap at offset 0: the pipeline moves block 2
    h.delete(1, 3);
    h.run_to_input();
    h.complete(); // delete of block 1 done; hint queued
    h.run_to_input();
    // the relocation read of block 2 is now in flight; a client read of
    // block 2 arrives during the move
    h.request(Request::ReadBlock(RequestReadBlock {
        block_id: Id::new(2),
        context: 4,
    }));
    h.settle();
    // the client sees the payload, and the move cost exactly one read,
    // one delete and one write
    assert!(h.events.contains(&Ev::ReadDone(4, payload.clone())));
    let tail: Vec<&str> = h.io_log[io_setup..].iter().map(|x| x.0).collect();
    assert_eq!(
        tail.iter().filter(|k| **k == "read").count(),
        1,
        "io after setup: {:?}",
        &h.io_log[io_setup..]
    );
    assert_eq!(tail.iter().filter(|k| **k == "write").count(), 1);
    assert_eq!(tail.iter().filter(|k| **k == "delete").count(), 2); // block 1, then block 2's old extent
    // the relocated block still reads back intact
    h.read(2, 5);
    h.settle();
    assert_eq!(h.events.last().unwrap(), &Ev::ReadDone(5, payload));
}

#[test]
fn locality_scheduling() {
    let mut h = Harness::new(10_000, None);
    h.write(&[1u8; 10], 1); // offset 0
    h.settle();
    h.write(&[2u8; 490], 2); // offset 10
    h.settle();
    h.write(&[3u8; 500], 3); // offset 500
    h.settle();
    h.write(&[4u8; 600], 4); // offset 1000
    h.settle();
    h.delete(2, 5);
    h.settle();
    h.delete(3, 6);
    h.settle();
    h.delete(4, 7);
    h.settle();
    // keep a task in flight so the three writes only queue up
    h.read(1, 8);
    h.run_to_input();
    assert!(h.pending.is_some());
    h.request(Request::WriteBlock(RequestWriteBlock {
        block_bytes: Bytes::from_vec(vec![9u8; 550]),
        context: 9,
    })); // only the gap at 1000 fits
    h.run_to_input();
    h.request(Request::WriteBlock(RequestWriteBlock {
        block_bytes: Bytes::from_vec(vec![10u8; 400]),
        context: 10,
    })); // first fit: the gap at 10
    h.run_to_input();
    h.request(Request::WriteBlock(RequestWriteBlock {
        block_bytes: Bytes::from_vec(vec![11u8; 450]),
        context: 11,
    })); // the gap at 500
    let io_before = h.io_log.len();
    h.settle();
    // blocks queued at offsets 1000, 10, 500 are dispatched nearest-first
    let writes: Vec<u64> = h.io_log[io_before..]
        .iter()
        .filter(|x| x.0 == "write")
        .map(|x| x.1)
        .collect();
    assert_eq!(writes, vec![10, 500, 1000]);
}

#[test]
fn delete_is_idempotent() {
    let mut h = Harness::new(1_000, None);
    h.write(&[5, 5], 1);
    h.settle();
    h.delete(1, 2);
    h.settle();
    h.delete(1, 3);
    h.settle();
    assert_eq!(
        h.events,
        vec![
            Ev::WriteDone(1, 1),
            Ev::DeleteDone(2, 1),
            Ev::DeleteNotFound(3),
        ]
    );
}

#[test]
fn cache_coherent_after_delete() {
    let mut h = Harness::new(1_000, None);
    h.write(&[8, 8, 8], 1);
    h.settle();
    h.read(1, 2);
    h.settle(); // fills the cache
    h.delete(1, 3);
    h.settle();
    h.read(1, 4);
    h.settle();
    // no stale cache hit: the block is gone
    assert_eq!(h.events.last().unwrap(), &Ev::ReadNotFound(4));
}

#[test]
fn read_unknown_block_not_found() {
    let mut h = Harness::new(1_000, None);
    h.read(42, 1);
    h.settle();
    assert_eq!(h.events, vec![Ev::ReadNotFound(1)]);
}

#[test]
fn info_reports_block_count() {
    let mut h = Harness::new(1_000, None);
    h.do_request(Request::Info(RequestInfo { context: 1 }));
    h.settle();
    h.write(&[1], 2);
    h.settle();
    h.do_request(Request::Info(RequestInfo { context: 3 }));
    h.settle();
    assert_eq!(h.events[0], Ev::Info(1, 0));
    assert_eq!(h.events[2], Ev::Info(3, 1));
}

#[test]
fn flush_replies_after_writes() {
    let mut h = Harness::new(1_000, None);
    h.write(&[1, 2], 1);
    h.do_request(Request::Flush(RequestFlush { context: 2 }));
    h.settle();
    assert_eq!(h.events, vec![Ev::WriteDone(1, 1), Ev::Flushed(2)]);
    assert_eq!(h.io_log, vec![("write", 0), ("flush", 2)]);
}

#[test]
fn repay_block_accepted() {
    let mut h = Harness::new(1_000, None);
    h.do_request(Request::LendBlock(RequestLendBlock { context: 1 }));
    h.run_to_input();
    let buf = h.lent.take().unwrap();
    h.request(Request::RepayBlock(RequestRepayBlock {
        block_bytes: buf.freeze(),
    }));
    h.settle();
    assert_eq!(h.events, vec![Ev::LendSuccess]);
}

#[test]
fn defrag_pipeline_drains_to_quiescence() {
    // a schema that keeps emitting hints still settles: the pipeline's
    // moves all complete and no further work is handed out
    let mut h = Harness::new(2_000, Some(2));
    for i in 0..4u64 {
        h.write(&[i as u8; 100], i);
        h.settle();
    }
    h.delete(1, 10);
    h.settle();
    h.delete(3, 11);
    h.settle();
    let io_after_moves = h.io_log.len();
    // fully settled: another pass performs no further I/O
    h.do_request(Request::Info(RequestInfo { context: 12 }));
    h.settle();
    assert_eq!(h.io_log.len(), io_after_moves);
}

#[test]
fn empty_block_round_trip() {
    let mut h = Harness::new(100, None);
    h.write(&[], 1);
    h.settle();
    h.read(1, 2);
    h.settle();
    assert_eq!(h.events, vec![Ev::WriteDone(1, 1), Ev::ReadDone(2, vec![])]);
}

#[test]
fn write_fills_file_exactly() {
    let mut h = Harness::new(8, None);
    h.write(&[1u8; 8], 1);
    h.settle();
    h.write(&[2u8; 1], 2);
    h.settle();
    assert_eq!(h.events, vec![Ev::WriteDone(1, 1), Ev::WriteNoSpace(2)]);
    h.read(1, 3);
    h.settle();
    assert_eq!(h.events.last().unwrap(), &Ev::ReadDone(3, vec![1u8; 8]));
}
