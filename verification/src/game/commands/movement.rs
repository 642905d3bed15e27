//! Movement commands: `Forward`, `Right`, `Left` and `Eject`.
//!
//! Implements position and facing changes with toroidal wrap-around,
//! emitting the corresponding `ppo`/`pex` GUI events. `Eject` pushes every
//! other player sharing the tile one step in the ejector's facing and tells
//! each the direction it was pushed from.

use vstd::prelude::*;
use crate::game::commands::{acting, actor, compute_direction, notes, sound_direction, step, step_x, step_y};
use crate::game::player::{Direction, Player, left_of, orientation_number, right_of};
use crate::game::world::{World, lemma_player_index, lemma_same_shape_update, lemma_wf_same_shape};
use crate::lines::{self, ppo_line, tagged_line, value_line};
use crate::protocol::{Command, CommandModel};

verus! {

/// `q` is pushed by an `Eject` of `e`: another player on the same tile.
pub open spec fn is_ejected(q: Player, e: Player) -> bool {
    q.id != e.id && q.x == e.x && q.y == e.y
}

/// How many players of `ps` an `Eject` of `e` pushes.
pub open spec fn ejected_count(ps: Seq<Player>, e: Player) -> nat
    decreases ps.len(),
{
    if ps.len() == 0 {
        0
    } else {
        ejected_count(ps.drop_last(), e) + if is_ejected(ps.last(), e) {
            1nat
        } else {
            0nat
        }
    }
}

/// The `ppo` events of the players of `ps` pushed by an `Eject` of `e` on a
/// `w` x `h` map, in order.
pub open spec fn eject_events(ps: Seq<Player>, e: Player, w: u32, h: u32) -> Seq<Seq<char>>
    decreases ps.len(),
{
    if ps.len() == 0 {
        Seq::empty()
    } else {
        let q = ps.last();
        eject_events(ps.drop_last(), e, w, h) + if is_ejected(q, e) {
            seq![
                ppo_line(
                    q.id as nat,
                    step_x(e.x, e.direction, w) as nat,
                    step_y(e.y, e.direction, h) as nat,
                    orientation_number(q.direction) as nat,
                ),
            ]
        } else {
            Seq::empty()
        }
    }
}

/// `b` is `a` moved to `(x, y)` with the message `m` queued for its client.
pub open spec fn moved_and_told(a: Player, b: Player, x: u32, y: u32, m: Seq<char>) -> bool {
    &&& b.x == x
    &&& b.y == y
    &&& notes(b) == notes(a).push(m)
    &&& b.id == a.id
    &&& b.direction == a.direction
    &&& b.level == a.level
    &&& b.inventory == a.inventory
    &&& b.team == a.team
    &&& b.commands == a.commands
    &&& b.last_command_end == a.last_command_end
    &&& b.death_time == a.death_time
    &&& b.last_food_count == a.last_food_count
}

/// What an `Eject` by `e` does to the player `q` of a `w` x `h` world.
pub open spec fn ejected_state(q: Player, r: Player, e: Player, w: u32, h: u32) -> bool {
    if is_ejected(q, e) {
        let nx = step_x(e.x, e.direction, w);
        let ny = step_y(e.y, e.direction, h);
        moved_and_told(
            q,
            r,
            nx,
            ny,
            value_line(
                "eject"@,
                sound_direction(
                    nx as int,
                    ny as int,
                    q.direction,
                    e.x as int,
                    e.y as int,
                    w as int,
                    h as int,
                ) as nat,
            ),
        )
    } else {
        r == q
    }
}

/// A step back, facing the other way, undoes a step.
proof fn lemma_step_back(x: u32, y: u32, d: Direction, w: u32, h: u32)
    requires
        x < w,
        y < h,
    ensures
        step_x(x, d, w) < w,
        step_y(y, d, h) < h,
        step_x(step_x(x, d, w), right_of(right_of(d)), w) == x,
        step_y(step_y(y, d, h), right_of(right_of(d)), h) == y,
{
    vstd::arithmetic::div_mod::lemma_small_mod(x as nat, w as nat);
    vstd::arithmetic::div_mod::lemma_small_mod(y as nat, h as nat);
    vstd::arithmetic::div_mod::lemma_mod_self_0(w as int);
    vstd::arithmetic::div_mod::lemma_mod_self_0(h as int);
    if x + 1 < w {
        vstd::arithmetic::div_mod::lemma_small_mod((x + 1) as nat, w as nat);
    } else {
        vstd::arithmetic::div_mod::lemma_mod_self_0(w as int);
    }
    if y + 1 < h {
        vstd::arithmetic::div_mod::lemma_small_mod((y + 1) as nat, h as nat);
    } else {
        vstd::arithmetic::div_mod::lemma_mod_self_0(h as int);
    }
}

/// The number an ejected player facing `facing` is told when pushed toward
/// `push`: the side of it on which the ejector stands.
pub open spec fn pushed_from(facing: Direction, push: Direction) -> u32 {
    if facing == push {
        5
    } else if facing == right_of(push) {
        3
    } else if facing == left_of(push) {
        7
    } else {
        1
    }
}

/// An ejected player is told the side from which it was pushed, as seen
/// from its own facing: 5 (behind) when it faces the way it was pushed, 1
/// (in front) when it faces the ejector, 3 when the ejector stands on its
/// right and 7 on its left. This holds on any map at least three tiles long
/// in the direction of the push.
pub proof fn lemma_eject_tells_the_side(q: Player, r: Player, e: Player, w: u32, h: u32)
    requires
        e.x < w,
        e.y < h,
        e.direction is North || e.direction is South ==> h >= 3,
        e.direction is East || e.direction is West ==> w >= 3,
        is_ejected(q, e),
        ejected_state(q, r, e, w, h),
    ensures
        r.x == step_x(e.x, e.direction, w),
        r.y == step_y(e.y, e.direction, h),
        notes(r) == notes(q).push(value_line("eject"@, pushed_from(q.direction, e.direction) as nat)),
{
    let d = e.direction;
    let back = right_of(right_of(d));
    let nx = step_x(e.x, d, w);
    let ny = step_y(e.y, d, h);
    lemma_step_back(e.x, e.y, d, w, h);
    crate::game::commands::lemma_front_is_one(nx, ny, back, w, h);
    let (ex, ey) = (e.x as int, e.y as int);
    assert(sound_direction(nx as int, ny as int, back, ex, ey, w as int, h as int) == 1);
    crate::game::commands::lemma_turn_rotates(nx as int, ny as int, back, ex, ey, w as int, h as int);
    crate::game::commands::lemma_turn_rotates(
        nx as int,
        ny as int,
        right_of(back),
        ex,
        ey,
        w as int,
        h as int,
    );
    assert(right_of(right_of(back)) == d);
    assert(right_of(back) == left_of(d));
    assert(left_of(back) == right_of(d));
}

proof fn lemma_ejected_count_zero(ps: Seq<Player>, e: Player)
    requires
        ejected_count(ps, e) == 0,
    ensures
        forall|j: int| 0 <= j < ps.len() ==> !is_ejected(#[trigger] ps[j], e),
    decreases ps.len(),
{
    if ps.len() > 0 {
        lemma_ejected_count_zero(ps.drop_last(), e);
        assert forall|j: int| 0 <= j < ps.len() implies !is_ejected(#[trigger] ps[j], e) by {
            if j < ps.len() - 1 {
                assert(ps[j] == ps.drop_last()[j]);
            }
        }
    }
}

/// The effect of a movement command of player `player_id` on `old`,
/// giving `new` and the answer `res`.
pub open spec fn movement_effect(
    command: CommandModel,
    player_id: usize,
    old: World,
    new: World,
    res: Seq<char>,
) -> bool {
            let p = actor(old, player_id);
            let i = crate::game::world::player_index(old.players@, player_id);
            let w = old.width;
            let h = old.height;
            match command {
                CommandModel::Forward => {
                    let q = Player { x: step_x(p.x, p.direction, w), y: step_y(p.y, p.direction, h), ..p };
                    &&& res == "ok\n"@
                    &&& new.players@ == old.players@.update(i, q)
                    &&& new.events() == old.events().push(
                        ppo_line(player_id as nat, q.x as nat, q.y as nat, orientation_number(p.direction) as nat),
                    )
                },
                CommandModel::Right => {
                    let q = Player { direction: right_of(p.direction), ..p };
                    &&& res == "ok\n"@
                    &&& new.players@ == old.players@.update(i, q)
                    &&& new.events() == old.events().push(
                        ppo_line(player_id as nat, p.x as nat, p.y as nat, orientation_number(q.direction) as nat),
                    )
                },
                CommandModel::Left => {
                    let q = Player { direction: left_of(p.direction), ..p };
                    &&& res == "ok\n"@
                    &&& new.players@ == old.players@.update(i, q)
                    &&& new.events() == old.events().push(
                        ppo_line(player_id as nat, p.x as nat, p.y as nat, orientation_number(q.direction) as nat),
                    )
                },
                CommandModel::Eject => if ejected_count(old.players@, p) == 0 {
                    &&& res == "ko\n"@
                    &&& new == old
                } else {
                    &&& res == "ok\n"@
                    &&& forall|j: int|
                        0 <= j < old.players@.len() ==> ejected_state(
                            #[trigger] old.players@[j],
                            new.players@[j],
                            p,
                            w,
                            h,
                        )
                    &&& new.events() == old.events() + eject_events(
                        old.players@,
                        p,
                        w,
                        h,
                    ) + seq![tagged_line("pex"@, player_id as nat)]
                },
                _ => {
                    &&& res == "ko\n"@
                    &&& new == old
                },
            }
}

/// Executes movement-related commands (`Forward`, `Right`, `Left`,
/// `Eject`); any other command answers `ko` and changes nothing.
pub fn execute(command: Command, player_id: usize, world: &mut World) -> (res: String)
    requires
        acting(*old(world), player_id),
    ensures
        final(world).wf(),
        final(world).same_shape(*old(world)),
        *final(world) == (World {
            players: final(world).players,
            gui_events: final(world).gui_events,
            ..*old(world)
        }),
        movement_effect(command@, player_id, *old(world), *final(world), res@),
{
    let i = world.find_player(player_id).unwrap();
    let ghost old_world = *world;
    let w = world.width;
    let h = world.height;
    match command {
        Command::Forward => {
            let p = &world.players[i];
            let (nx, ny) = step(p.x, p.y, p.direction, w, h);
            let o = p.direction.orientation();
            world.players[i].x = nx;
            world.players[i].y = ny;
            let line = lines::ppo(player_id, nx, ny, o);
            world.gui_events.push_back(line);
            proof {
                let q = Player { x: nx, y: ny, ..old_world.players@[i as int] };
                assert(world.players@ =~= old_world.players@.update(i as int, q));
                assert(world.events() =~= old_world.events().push(line@));
                lemma_same_shape_update(old_world, *world, i as int, q);
            }
            lines::fixed("ok\n")
        },
        Command::Right => {
            let d = world.players[i].direction.turn_right();
            world.players[i].direction = d;
            let p = &world.players[i];
            let line = lines::ppo(player_id, p.x, p.y, d.orientation());
            world.gui_events.push_back(line);
            proof {
                let q = Player { direction: d, ..old_world.players@[i as int] };
                assert(world.players@ =~= old_world.players@.update(i as int, q));
                assert(world.events() =~= old_world.events().push(line@));
                lemma_same_shape_update(old_world, *world, i as int, q);
            }
            lines::fixed("ok\n")
        },
        Command::Left => {
            let d = world.players[i].direction.turn_left();
            world.players[i].direction = d;
            let p = &world.players[i];
            let line = lines::ppo(player_id, p.x, p.y, d.orientation());
            world.gui_events.push_back(line);
            proof {
                let q = Player { direction: d, ..old_world.players@[i as int] };
                assert(world.players@ =~= old_world.players@.update(i as int, q));
                assert(world.events() =~= old_world.events().push(line@));
                lemma_same_shape_update(old_world, *world, i as int, q);
            }
            lines::fixed("ok\n")
        },
        Command::Eject => eject(player_id, i, world),
        _ => {
            proof {
                assert(world.same_shape(old_world));
            }
            lines::fixed("ko\n")
        },
    }
}

/// Pushes every other player on the ejector's tile one step in its facing.
fn eject(player_id: usize, i: usize, world: &mut World) -> (res: String)
    requires
        old(world).wf(),
        i < old(world).players@.len(),
        old(world).players@[i as int].id == player_id,
    ensures
        final(world).wf(),
        final(world).same_shape(*old(world)),
        *final(world) == (World {
            players: final(world).players,
            gui_events: final(world).gui_events,
            ..*old(world)
        }),
        ({
            let p = old(world).players@[i as int];
            let w = old(world).width;
            let h = old(world).height;
            if ejected_count(old(world).players@, p) == 0 {
                &&& res@ == "ko\n"@
                &&& *final(world) == *old(world)
            } else {
                &&& res@ == "ok\n"@
                &&& forall|j: int|
                    0 <= j < old(world).players@.len() ==> ejected_state(
                        #[trigger] old(world).players@[j],
                        final(world).players@[j],
                        p,
                        w,
                        h,
                    )
                &&& final(world).events() == old(world).events() + eject_events(
                    old(world).players@,
                    p,
                    w,
                    h,
                ) + seq![tagged_line("pex"@, player_id as nat)]
            }
        }),
{
    let ghost old_world = *world;
    let ghost e = old_world.players@[i as int];
    let w = world.width;
    let h = world.height;
    let px = world.players[i].x;
    let py = world.players[i].y;
    let pdir = world.players[i].direction;
    let n = world.players.len();

    let mut count: usize = 0;
    let mut j: usize = 0;
    while j < n
        invariant
            n == world.players@.len(),
            *world == old_world,
            e == old_world.players@[i as int],
            px == e.x && py == e.y && pdir == e.direction && e.id == player_id,
            j <= n,
            count == ejected_count(world.players@.take(j as int), e),
            count <= j,
        decreases n - j,
    {
        assert(world.players@.take(j + 1).drop_last() =~= world.players@.take(j as int));
        let q = &world.players[j];
        if q.id != player_id && q.x == px && q.y == py {
            count = count + 1;
        }
        j = j + 1;
    }
    assert(world.players@.take(n as int) =~= world.players@);
    if count == 0 {
        proof {
            assert(world.same_shape(old_world));
        }
        return lines::fixed("ko\n");
    }

    proof {
        crate::game::commands::lemma_step_on_map(px, py, pdir, w, h);
    }
    let (nx, ny) = step(px, py, pdir, w, h);
    let mut j: usize = 0;
    while j < n
        invariant
            n == world.players@.len(),
            n == old_world.players@.len(),
            old_world.wf(),
            e == old_world.players@[i as int],
            px == e.x && py == e.y && pdir == e.direction && e.id == player_id,
            px < w && py < h,
            w == old_world.width && h == old_world.height,
            nx == step_x(px, pdir, w),
            ny == step_y(py, pdir, h),
            nx < w && ny < h,
            j <= n,
            *world == (World { players: world.players, gui_events: world.gui_events, ..old_world }),
            forall|k: int|
                0 <= k < j ==> ejected_state(
                    #[trigger] old_world.players@[k],
                    world.players@[k],
                    e,
                    w,
                    h,
                ),
            forall|k: int| j <= k < n ==> #[trigger] world.players@[k] == old_world.players@[k],
            world.events() == old_world.events() + eject_events(
                old_world.players@.take(j as int),
                e,
                w,
                h,
            ),
        decreases n - j,
    {
        assert(old_world.players@.take(j + 1).drop_last() =~= old_world.players@.take(j as int));
        let ghost before = *world;
        if world.players[j].id != player_id && world.players[j].x == px && world.players[j].y == py {
            proof {
                crate::game::commands::lemma_on_map_deltas(nx, ny, px, py, w, h);
            }
            let k = compute_direction(
                nx as i32,
                ny as i32,
                world.players[j].direction,
                px as i32,
                py as i32,
                w as i32,
                h as i32,
            );
            world.players[j].x = nx;
            world.players[j].y = ny;
            let msg = lines::value("eject", k as u64);
            world.players[j].notifications.push_back(msg);
            let line = lines::ppo(world.players[j].id, nx, ny, world.players[j].direction.orientation());
            world.gui_events.push_back(line);
            proof {
                assert(world.events() =~= before.events().push(line@));
                assert(notes(world.players@[j as int]) =~= notes(before.players@[j as int]).push(msg@));
                assert forall|k: int| 0 <= k < j + 1 implies ejected_state(
                    #[trigger] old_world.players@[k],
                    world.players@[k],
                    e,
                    w,
                    h,
                ) by {
                    if k < j {
                        assert(world.players@[k] == before.players@[k]);
                    }
                }
            }
        } else {
            proof {
                assert(world.events() =~= before.events() + Seq::<Seq<char>>::empty());
            }
        }
        j = j + 1;
        proof {
            assert(world.events() =~= old_world.events() + eject_events(
                old_world.players@.take(j as int),
                e,
                w,
                h,
            ));
        }
    }
    assert(old_world.players@.take(n as int) =~= old_world.players@);

    let line = lines::tagged("pex", player_id as u64);
    let ghost mid = world.events();
    world.gui_events.push_back(line);
    proof {
        assert(world.events() =~= mid.push(line@));
        assert(world.events() =~= old_world.events() + eject_events(old_world.players@, e, w, h)
            + seq![tagged_line("pex"@, player_id as nat)]);
        assert forall|k: int| 0 <= k < world.players@.len() implies {
            &&& (#[trigger] world.players@[k]).id == old_world.players@[k].id
            &&& world.players@[k].x < world.width
            &&& world.players@[k].y < world.height
        } by {
            assert(ejected_state(old_world.players@[k], world.players@[k], e, w, h));
        }
        lemma_wf_same_shape(old_world, *world);
    }
    lines::fixed("ok\n")
}

} // verus!
