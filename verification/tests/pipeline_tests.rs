use raytracer::dispatch::Dispatcher;
use raytracer::job::RenderCommand;
use raytracer::job::RenderResult;
use raytracer::reassembly::ReassemblyBuffer;
use raytracer::reassembly::RowOrder;
use raytracer::tile::Rect;
use raytracer::tile::Tile;

fn render(line_num: i32, width: i32) -> RenderResult<(i32, i32)> {
    let mut tile = Tile::new(Rect { x: 0, y: line_num, w: width, h: 1 });
    let mut line: Vec<(i32, i32)> = Vec::new();
    while let Some(pixel) = tile.next() {
        line.push(pixel);
    }
    RenderResult { line_num, line }
}

#[test]
fn a_frame_comes_out_top_row_first_whatever_the_worker_speeds() {
    let height: i32 = 6;
    let width: i32 = 3;
    let mut dispatcher = Dispatcher::new(3);
    let mut queues: Vec<Vec<i32>> = vec![Vec::new(), Vec::new(), Vec::new()];
    for row in (0..height).rev() {
        for delivery in dispatcher.submit_job(RenderCommand::Line { line_num: row, context: width }) {
            match delivery.command {
                RenderCommand::Line { line_num, context: _ } => queues[delivery.worker].push(line_num),
                RenderCommand::Stop => panic!("a scanline job became a stop"),
            }
        }
    }
    assert_eq!(queues, vec![vec![5, 2], vec![4, 1], vec![3, 0]]);

    // The last worker finishes first, the first one last.
    let mut buffer: ReassemblyBuffer<(i32, i32)> = ReassemblyBuffer::new(height - 1, RowOrder::Descending);
    let mut written: Vec<RenderResult<(i32, i32)>> = Vec::new();
    for queue in queues.iter().rev() {
        for row in queue {
            written.extend(buffer.accept(render(*row, width)));
        }
    }
    let rows: Vec<i32> = written.iter().map(|l| l.line_num).collect();
    assert_eq!(rows, vec![5, 4, 3, 2, 1, 0]);
    for line in &written {
        assert_eq!(line.line, vec![(0, line.line_num), (1, line.line_num), (2, line.line_num)]);
    }
    assert_eq!(buffer.held(), 0);
}
