# mos_kernel

The verified core of MOS, a small x86-64 teaching kernel that boots under Limine
and plays snake.

`src/` is the library. Nothing in it touches hardware: memory that the machine
shares with devices comes in as a byte slice, port traffic goes out as values,
and what a device answered comes back in as an argument. Every function carries a
contract that Verus proves.

| module | what it holds |
| --- | --- |
| `boot` | the boot loader's requests and answers |
| `startup` | what the screen says while the machine starts |
| `console`, `canvas`, `font` | the text console and drawing on pixel memory |
| `mm`, `heap`, `bits` | page frames, the snapshot of the memory map, the bump heap |
| `gdt`, `interrupts` | descriptor tables, gates and the tick counter |
| `pic`, `serial`, `port` | command sequences for the interrupt controllers, the timer and the serial line |
| `keyboard` | scan codes and the key queue |
| `acpi` | the guarded walk through the ACPI tables to the HPET registers |
| `game`, `board`, `rng` | the snake game |

`app/` is the kernel around it: the entry point, port and memory access, the
interrupt stubs and the main loop. `tests/` runs the library on concrete values.

What the library promises as a whole stands in public proof functions named
`lemma_...`: that a frame in use is never handed out again, nor one that holds the
allocator's own bitmap; that heap blocks are aligned and do not overlap; that the
ACPI walk reads nothing the memory map does not vouch for and ends with the
registers the tables give; that the snake never turns back onto its neck and that
its food never lies on it; and more.
