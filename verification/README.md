# axis_core

The logic of the memory manager and network stack of a small x86_64
kernel, written in Verus: every function in `src/` carries a contract that
Verus proves. The allocators keep their bookkeeping in `Vec`s, so they run
on a host heap (tests, tools); they are not yet the kernel's own global
allocator, which would need bookkeeping laid out in memory handed to them.

## Layout

- `src/mm/pmm/` — physical memory: the buddy allocator over free lists,
  zones with watermarks, NUMA nodes, per-frame metadata, and the physical
  memory manager that is built from the boot memory map.
- `src/mm/heap/` — the kernel heap: slab caches of fixed-size objects, the
  set of named caches, and `kmalloc` with its size buckets and page-block
  allocations. Pages come from a `PageProvider`; a provider may keep a
  ledger of the pages it has handed out (the test pool `FakeProvider`
  does), and the contracts of the heap and of the address space state how
  each call moves that ledger.
- `src/mm/vmm/` — virtual memory: areas (`VmaManager`), the page-table
  interface (`PageMapper`, with `SoftPageTable` as a software address
  space), range mapping with roll-back, copy-on-write, swap, and the
  address-space state with `mmap`/`munmap`/`mprotect` and the page-fault
  handler.
- `src/net/` — wire formats and protocol logic: Ethernet, ARP, IPv4/IPv6,
  ICMP/ICMPv6, IP fragments, routing by longest prefix, UDP/TCP headers
  and connections, sockets, interfaces, and an io_uring-style ring.
- `tests/` — tests on concrete values.
- `app/` — what the library leaves to the kernel: the locks, the global
  instances behind them, the global allocator, and boot-time reports.

The laws of the library are public proof functions whose names start with
`lemma_`; each one's doc comment states it in words.
